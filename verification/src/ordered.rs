//! Maps and sets of names that keep the order in which the names came.

use indexmap::{IndexMap, IndexSet};
use vstd::prelude::*;

use crate::text::texts;

verus! {

// ---------------------------------------------------------------------------------------------
// The model: a list of entries, each with a key.
// ---------------------------------------------------------------------------------------------

/// Tells whether some entry has the key.
pub open spec fn has_key<K, V>(entries: Seq<(K, V)>, key: K) -> bool {
    exists|i: int| 0 <= i < entries.len() && #[trigger] entries[i].0 == key
}

/// The position of an entry with the key.
pub open spec fn slot_of<K, V>(entries: Seq<(K, V)>, key: K) -> int {
    choose|i: int| 0 <= i < entries.len() && #[trigger] entries[i].0 == key
}

/// No two entries have the same key.
pub open spec fn distinct_keys<K, V>(entries: Seq<(K, V)>) -> bool {
    forall|i: int, j: int|
        0 <= i < j < entries.len() ==> (#[trigger] entries[i]).0 != (#[trigger] entries[j]).0
}

/// The value filed under the key, if there is one.
pub open spec fn lookup<K, V>(entries: Seq<(K, V)>, key: K) -> Option<V> {
    if has_key(entries, key) {
        Some(entries[slot_of(entries, key)].1)
    } else {
        None
    }
}

/// Files a value under a key: in place where the key is known, else at the end.
pub open spec fn upsert<K, V>(entries: Seq<(K, V)>, key: K, value: V) -> Seq<(K, V)> {
    if has_key(entries, key) {
        entries.update(slot_of(entries, key), (key, value))
    } else {
        entries.push((key, value))
    }
}

/// Files each of the later entries, from the first to the last.
pub open spec fn extended<K, V>(entries: Seq<(K, V)>, later: Seq<(K, V)>) -> Seq<(K, V)>
    decreases later.len(),
{
    if later.len() == 0 {
        entries
    } else {
        upsert(extended(entries, later.drop_last()), later.last().0, later.last().1)
    }
}

/// The keys, in order.
pub open spec fn keys_of<K, V>(entries: Seq<(K, V)>) -> Seq<K> {
    entries.map_values(|e: (K, V)| e.0)
}

/// With distinct keys, the position of a key is the only one that it has.
pub proof fn lemma_slot_unique<K, V>(entries: Seq<(K, V)>, i: int)
    requires
        distinct_keys(entries),
        0 <= i < entries.len(),
    ensures
        has_key(entries, entries[i].0),
        slot_of(entries, entries[i].0) == i,
        lookup(entries, entries[i].0) == Some(entries[i].1),
{
    let k = slot_of(entries, entries[i].0);
    assert(0 <= k < entries.len() && entries[k].0 == entries[i].0);
}

/// Filing a value keeps the keys distinct.
pub proof fn lemma_upsert_distinct<K, V>(entries: Seq<(K, V)>, key: K, value: V)
    requires
        distinct_keys(entries),
    ensures
        distinct_keys(upsert(entries, key, value)),
{
    let after = upsert(entries, key, value);
    assert forall|i: int, j: int| 0 <= i < j < after.len() implies (#[trigger] after[i]).0 != (
    #[trigger] after[j]).0 by {
        if has_key(entries, key) {
            let k = slot_of(entries, key);
            assert(entries[k].0 == key);
            assert(entries[i].0 != entries[j].0);
        } else {
            if j < entries.len() {
                assert(entries[i].0 != entries[j].0);
            } else {
                assert(entries[i].0 != key);
            }
        }
    }
}

/// Filing a list of entries keeps the keys distinct.
pub proof fn lemma_extended_distinct<K, V>(entries: Seq<(K, V)>, later: Seq<(K, V)>)
    requires
        distinct_keys(entries),
    ensures
        distinct_keys(extended(entries, later)),
    decreases later.len(),
{
    if later.len() > 0 {
        lemma_extended_distinct(entries, later.drop_last());
        lemma_upsert_distinct(
            extended(entries, later.drop_last()),
            later.last().0,
            later.last().1,
        );
    }
}

/// What was filed last under a key is what a lookup gives back, and no other key is touched.
pub proof fn lemma_upsert_lookup<K, V>(
    entries: Seq<(K, V)>,
    key: K,
    value: V,
    other: K,
)
    requires
        distinct_keys(entries),
    ensures
        lookup(upsert(entries, key, value), other) == (if other == key {
            Some(value)
        } else {
            lookup(entries, other)
        }),
{
    let after = upsert(entries, key, value);
    lemma_upsert_distinct(entries, key, value);
    if other == key {
        if has_key(entries, key) {
            lemma_slot_unique(after, slot_of(entries, key));
        } else {
            lemma_slot_unique(after, entries.len() as int);
        }
    } else if has_key(entries, other) {
        let k = slot_of(entries, other);
        assert(entries[k].0 == other);
        lemma_slot_unique(entries, k);
        assert(after[k] == entries[k]);
        lemma_slot_unique(after, k);
    } else {
        assert(!has_key(after, other)) by {
            if has_key(after, other) {
                let k = slot_of(after, other);
                assert(after[k].0 == other);
                if k < entries.len() {
                    if has_key(entries, key) && k == slot_of(entries, key) {
                    } else {
                        assert(entries[k].0 == other);
                    }
                }
            }
        }
    }
}

/// Filing a value makes its key known, and no other.
pub proof fn lemma_upsert_has_key<K, V>(entries: Seq<(K, V)>, key: K, value: V, other: K)
    ensures
        has_key(upsert(entries, key, value), other) == (other == key || has_key(entries, other)),
{
    let after = upsert(entries, key, value);
    if has_key(entries, key) {
        let k = slot_of(entries, key);
        assert(entries[k].0 == key);
        assert(after[k].0 == key);
    } else {
        assert(after[entries.len() as int].0 == key);
    }
    if has_key(entries, other) {
        let k = slot_of(entries, other);
        assert(entries[k].0 == other);
        assert(after[k].0 == other);
    }
    if has_key(after, other) && other != key {
        let k = slot_of(after, other);
        assert(after[k].0 == other);
        assert(entries[k].0 == other);
    }
}

/// Filing entries with distinct names: each gets its own value, and no other name is touched.
pub proof fn lemma_extended_lookup<K, V>(entries: Seq<(K, V)>, later: Seq<(K, V)>, key: K)
    requires
        distinct_keys(entries),
        distinct_keys(later),
    ensures
        lookup(extended(entries, later), key) == (match lookup(later, key) {
            Some(value) => Some(value),
            None => lookup(entries, key),
        }),
    decreases later.len(),
{
    if later.len() > 0 {
        let front = later.drop_last();
        let last = later.last();
        assert forall|i: int, j: int| 0 <= i < j < front.len() implies (#[trigger] front[i]).0 != (
        #[trigger] front[j]).0 by {
            assert(later[i].0 != later[j].0);
        }
        lemma_extended_lookup(entries, front, key);
        lemma_extended_distinct(entries, front);
        lemma_upsert_lookup(extended(entries, front), last.0, last.1, key);
        assert(!has_key(front, last.0)) by {
            if has_key(front, last.0) {
                let k = slot_of(front, last.0);
                assert(front[k].0 == last.0);
                assert(later[k].0 != later[later.len() - 1].0);
            }
        }
        assert(upsert(front, last.0, last.1) =~= later);
        lemma_upsert_lookup(front, last.0, last.1, key);
    }
}

/// Of entries that share a name, the last one counts.
pub proof fn lemma_extended_last<K, V>(entries: Seq<(K, V)>, later: Seq<(K, V)>, k: int)
    requires
        distinct_keys(entries),
        0 <= k < later.len(),
        forall|j: int| k < j < later.len() ==> (#[trigger] later[j]).0 != later[k].0,
    ensures
        lookup(extended(entries, later), later[k].0) == Some(later[k].1),
    decreases later.len(),
{
    let front = later.drop_last();
    let last = later.last();
    lemma_extended_distinct(entries, front);
    lemma_upsert_lookup(extended(entries, front), last.0, last.1, later[k].0);
    if k < front.len() {
        assert forall|j: int| k < j < front.len() implies (#[trigger] front[j]).0 != front[k].0 by {
            assert(later[j].0 != later[k].0);
        }
        lemma_extended_last(entries, front, k);
        assert(later[later.len() - 1].0 != later[k].0);
    }
}

/// A name that is not filed keeps its value.
pub proof fn lemma_extended_other<K, V>(entries: Seq<(K, V)>, later: Seq<(K, V)>, key: K)
    requires
        distinct_keys(entries),
        forall|j: int| 0 <= j < later.len() ==> (#[trigger] later[j]).0 != key,
    ensures
        lookup(extended(entries, later), key) == lookup(entries, key),
    decreases later.len(),
{
    if later.len() > 0 {
        let front = later.drop_last();
        let last = later.last();
        assert forall|j: int| 0 <= j < front.len() implies (#[trigger] front[j]).0 != key by {
            assert(later[j].0 != key);
        }
        lemma_extended_other(entries, front, key);
        lemma_extended_distinct(entries, front);
        lemma_upsert_lookup(extended(entries, front), last.0, last.1, key);
        assert(later[later.len() - 1].0 != key);
    }
}

/// What is filed under a name is the value of the only entry that has it; a name that no entry has
/// stands for nothing.
pub proof fn law_lookup<K, V>(entries: Seq<(K, V)>, key: K)
    requires
        distinct_keys(entries),
    ensures
        forall|i: int|
            0 <= i < entries.len() && (#[trigger] entries[i]).0 == key ==> lookup(entries, key)
                == Some(entries[i].1),
        (forall|i: int| 0 <= i < entries.len() ==> (#[trigger] entries[i]).0 != key) ==> lookup(
            entries,
            key,
        ) is None,
{
    assert forall|i: int| 0 <= i < entries.len() && (#[trigger] entries[i]).0 == key implies lookup(
        entries,
        key,
    ) == Some(entries[i].1) by {
        lemma_slot_unique(entries, i);
    }
}

/// A value that is filed under a known name takes the place of the one that had it; under a new
/// name it goes to the end. Everything else stays where it is.
pub proof fn law_filed_in_place<K, V>(entries: Seq<(K, V)>, key: K, value: V, i: int)
    requires
        distinct_keys(entries),
    ensures
        0 <= i < entries.len() && entries[i].0 == key ==> upsert(entries, key, value)
            == entries.update(i, (key, value)),
        (forall|j: int| 0 <= j < entries.len() ==> (#[trigger] entries[j]).0 != key) ==> upsert(
            entries,
            key,
            value,
        ) == entries.push((key, value)),
{
    if 0 <= i < entries.len() && entries[i].0 == key {
        lemma_slot_unique(entries, i);
    }
}

/// A list of entries can be filed part by part, and one entry is filed by itself.
pub proof fn law_filed_by_parts<K, V>(
    entries: Seq<(K, V)>,
    head: Seq<(K, V)>,
    tail: Seq<(K, V)>,
    entry: (K, V),
)
    ensures
        extended(entries, head + tail) == extended(extended(entries, head), tail),
        extended(entries, seq![entry]) == upsert(entries, entry.0, entry.1),
        extended(entries, seq![]) == entries,
    decreases tail.len(),
{
    let one = seq![entry];
    assert(one.drop_last() =~= Seq::empty());
    assert(one.last() == entry);
    reveal_with_fuel(extended, 2);
    if tail.len() > 0 {
        law_filed_by_parts(entries, head, tail.drop_last(), entry);
        assert((head + tail).drop_last() =~= head + tail.drop_last());
        assert((head + tail).last() == tail.last());
    } else {
        assert(head + tail =~= head);
    }
}

/// The entries of a list of pairs.
pub open spec fn pairs<V>(list: Seq<(String, V)>) -> Seq<(Seq<char>, V)> {
    list.map_values(|e: (String, V)| (e.0@, e.1))
}

/// Filing entries with distinct keys in an empty map keeps them as they are.
pub proof fn lemma_extended_fresh<K, V>(later: Seq<(K, V)>)
    requires
        distinct_keys(later),
    ensures
        extended(Seq::empty(), later) == later,
    decreases later.len(),
{
    if later.len() > 0 {
        let front = later.drop_last();
        assert(distinct_keys(front)) by {
            assert forall|i: int, j: int| 0 <= i < j < front.len() implies (
            #[trigger] front[i]).0 != (#[trigger] front[j]).0 by {
                assert(later[i].0 != later[j].0);
            }
        }
        lemma_extended_fresh(front);
        assert(!has_key(front, later.last().0)) by {
            if has_key(front, later.last().0) {
                let i = slot_of(front, later.last().0);
                assert(front[i].0 == later.last().0);
                assert(later[i].0 != later[later.len() - 1].0);
            }
        }
        assert(front.push(later.last()) =~= later);
    } else {
        assert(later =~= Seq::empty());
    }
}

/// A list that pairs the keys of a map with other values, filed in an empty map, stays as it is.
pub proof fn lemma_rekeyed<V, W>(entries: Seq<(Seq<char>, V)>, list: Seq<(String, W)>)
    requires
        distinct_keys(entries),
        list.len() == entries.len(),
        forall|i: int| 0 <= i < list.len() ==> (#[trigger] list[i]).0@ == entries[i].0,
    ensures
        extended(Seq::empty(), pairs(list)) == pairs(list),
        distinct_keys(pairs(list)),
        pairs(list).len() == list.len(),
        forall|i: int|
            0 <= i < list.len() ==> (#[trigger] pairs(list)[i]) == (entries[i].0, list[i].1),
{
    assert forall|i: int, j: int| 0 <= i < j < list.len() implies (
    #[trigger] pairs(list)[i]).0 != (#[trigger] pairs(list)[j]).0 by {
        assert(entries[i].0 != entries[j].0);
    }
    lemma_extended_fresh(pairs(list));
}

/// Lists of entries with the same keys know the same keys, at the same positions.
pub proof fn lemma_slot_mapped<K, V, W>(
    entries: Seq<(K, V)>,
    others: Seq<(K, W)>,
    key: K,
)
    requires
        distinct_keys(entries),
        entries.len() == others.len(),
        forall|i: int|
            0 <= i < entries.len() ==> (#[trigger] entries[i]).0 == (#[trigger] others[i]).0,
    ensures
        has_key(entries, key) == has_key(others, key),
        has_key(entries, key) ==> slot_of(entries, key) == slot_of(others, key),
        has_key(entries, key) ==> 0 <= slot_of(entries, key) < entries.len(),
        distinct_keys(others),
{
    assert forall|i: int, j: int| 0 <= i < j < others.len() implies (#[trigger] others[i]).0 != (
    #[trigger] others[j]).0 by {
        assert(entries[i].0 != entries[j].0);
    }
    if has_key(entries, key) {
        let i = slot_of(entries, key);
        assert(entries[i].0 == key);
        assert(others[i].0 == key);
        lemma_slot_unique(others, i);
    }
    if has_key(others, key) {
        let i = slot_of(others, key);
        assert(others[i].0 == key);
        assert(entries[i].0 == key);
    }
}

// ---------------------------------------------------------------------------------------------
// The outside collections.
// ---------------------------------------------------------------------------------------------

#[verifier::external_type_specification]
#[verifier::external_body]
#[verifier::reject_recursive_types(K)]
#[verifier::reject_recursive_types(V)]
#[verifier::reject_recursive_types(S)]
pub struct ExIndexMap<K, V, S>(indexmap::IndexMap<K, V, S>);

#[verifier::external_type_specification]
#[verifier::external_body]
#[verifier::reject_recursive_types(T)]
#[verifier::reject_recursive_types(S)]
pub struct ExIndexSet<T, S>(indexmap::IndexSet<T, S>);

/// The entries of an `indexmap::IndexMap`, in its order.
pub uninterp spec fn index_map_entries(map: IndexMap<String, usize>) -> Seq<(Seq<char>, usize)>;

/// The items of an `indexmap::IndexSet`, in its order.
pub uninterp spec fn index_set_items(set: IndexSet<String>) -> Seq<Seq<char>>;

/// `IndexMap::new`: the map is empty.
#[verifier::external_body]
fn index_map_new() -> (map: IndexMap<String, usize>)
    ensures
        index_map_entries(map) == Seq::<(Seq<char>, usize)>::empty(),
{
    IndexMap::new()
}

/// `IndexMap::insert`: a known key keeps its place and gets the new value, and the old value is
/// handed back; an unknown key is added at the end.
#[verifier::external_body]
fn index_map_insert(map: &mut IndexMap<String, usize>, key: String, value: usize) -> (previous:
    Option<usize>)
    ensures
        index_map_entries(*final(map)) == upsert(index_map_entries(*old(map)), key@, value),
        previous == lookup(index_map_entries(*old(map)), key@),
{
    map.insert(key, value)
}

/// `IndexMap::get`: the value filed under the key, if there is one.
#[verifier::external_body]
fn index_map_get(map: &IndexMap<String, usize>, key: &str) -> (value: Option<usize>)
    ensures
        value == lookup(index_map_entries(*map), key@),
{
    map.get(key).copied()
}

/// `IndexMap::get_index`: the entry at a position, of which the key is handed out, or `None` past
/// the end.
#[verifier::external_body]
fn index_map_key_at(map: &IndexMap<String, usize>, index: usize) -> (key: Option<&String>)
    ensures
        match key {
            Some(k) => index < index_map_entries(*map).len() && k@ == index_map_entries(
                *map,
            )[index as int].0,
            None => index >= index_map_entries(*map).len(),
        },
{
    map.get_index(index).map(|entry| entry.0)
}

/// `IndexMap::into_keys`: the keys, in the map's order.
#[verifier::external_body]
fn index_map_into_keys(map: IndexMap<String, usize>) -> (keys: Vec<String>)
    ensures
        texts(keys@) == keys_of(index_map_entries(map)),
{
    map.into_keys().collect()
}

/// `IndexSet::new`: the set is empty.
#[verifier::external_body]
pub(crate) fn index_set_new() -> (set: IndexSet<String>)
    ensures
        index_set_items(set) == Seq::<Seq<char>>::empty(),
{
    IndexSet::new()
}

/// `IndexSet::insert`: an item that the set lacks is added at the end, one that it has leaves the
/// set as it is; tells which of the two happened.
#[verifier::external_body]
pub(crate) fn index_set_insert(set: &mut IndexSet<String>, item: String) -> (added: bool)
    ensures
        index_set_items(*final(set)) == set_insert(index_set_items(*old(set)), item@),
        added == !index_set_items(*old(set)).contains(item@),
{
    set.insert(item)
}

/// `IndexSet::len`: how many items the set holds.
#[verifier::external_body]
pub(crate) fn index_set_len(set: &IndexSet<String>) -> (len: usize)
    ensures
        len == index_set_items(*set).len(),
{
    set.len()
}

/// `IndexSet::get_index`: the item at a position, or `None` past the end.
#[verifier::external_body]
pub(crate) fn index_set_item_at(set: &IndexSet<String>, index: usize) -> (item: Option<&String>)
    ensures
        match item {
            Some(s) => index < index_set_items(*set).len() && s@ == index_set_items(
                *set,
            )[index as int],
            None => index >= index_set_items(*set).len(),
        },
{
    set.get_index(index)
}

/// Adds an item at the end of a list that lacks it.
pub open spec fn set_insert(items: Seq<Seq<char>>, item: Seq<char>) -> Seq<Seq<char>> {
    if items.contains(item) {
        items
    } else {
        items.push(item)
    }
}

/// Adds each of the later items that the list lacks, from the first to the last.
pub open spec fn set_extended(items: Seq<Seq<char>>, later: Seq<Seq<char>>) -> Seq<Seq<char>>
    decreases later.len(),
{
    if later.len() == 0 {
        items
    } else {
        set_insert(set_extended(items, later.drop_last()), later.last())
    }
}

// ---------------------------------------------------------------------------------------------
// A map from names to values of any type.
// ---------------------------------------------------------------------------------------------

/// An index of names, and beside it the value of each name.
struct Slots<V> {
    index: IndexMap<String, usize>,
    values: Vec<V>,
}

impl<V> Slots<V> {
    /// The index files each name under its own position, and no name twice.
    spec fn wf(self) -> bool {
        let names = index_map_entries(self.index);
        &&& names.len() == self.values@.len()
        &&& forall|i: int| 0 <= i < names.len() ==> (#[trigger] names[i]).1 == i
        &&& distinct_keys(names)
    }

    spec fn entries(self) -> Seq<(Seq<char>, V)> {
        let names = index_map_entries(self.index);
        Seq::new(self.values@.len(), |i: int| (names[i].0, self.values@[i]))
    }

    proof fn lemma_entries(self)
        requires
            self.wf(),
        ensures
            distinct_keys(self.entries()),
            forall|key: Seq<char>|
                has_key(self.entries(), key) == #[trigger] has_key(
                    index_map_entries(self.index),
                    key,
                ),
            forall|key: Seq<char>|
                has_key(self.entries(), key) ==> lookup(index_map_entries(self.index), key)
                    == Some(#[trigger] slot_of(self.entries(), key) as usize) && 0 <= slot_of(
                    self.entries(),
                    key,
                ) < self.values@.len(),
    {
        let names = index_map_entries(self.index);
        let entries = self.entries();
        assert forall|i: int, j: int| 0 <= i < j < entries.len() implies (
        #[trigger] entries[i]).0 != (#[trigger] entries[j]).0 by {
            assert(names[i].0 != names[j].0);
        }
        assert forall|key: Seq<char>| has_key(entries, key) == #[trigger] has_key(
            names,
            key,
        ) by {
            if has_key(entries, key) {
                let i = slot_of(entries, key);
                assert(names[i].0 == key);
            }
            if has_key(names, key) {
                let i = slot_of(names, key);
                assert(entries[i].0 == key);
            }
        }
        assert forall|key: Seq<char>| has_key(entries, key) implies lookup(names, key) == Some(
            #[trigger] slot_of(entries, key) as usize,
        ) && 0 <= slot_of(entries, key) < self.values@.len() by {
            let i = slot_of(entries, key);
            assert(entries[i].0 == key);
            assert(names[i].0 == key);
            lemma_slot_unique(names, i);
        }
    }
}

/// A map from component names to values. It keeps the order in which the names came.
pub struct ComponentMap<V> {
    slots: Slots<V>,
}

impl<V> View for ComponentMap<V> {
    type V = Seq<(Seq<char>, V)>;

    closed spec fn view(&self) -> Seq<(Seq<char>, V)> {
        self.slots.entries()
    }
}

impl<V> ComponentMap<V> {
    #[verifier::type_invariant]
    spec fn inv(self) -> bool {
        self.slots.wf()
    }

    /// An empty map.
    pub fn new() -> (map: Self)
        ensures
            map@ == Seq::<(Seq<char>, V)>::empty(),
    {
        let map = ComponentMap { slots: Slots { index: index_map_new(), values: Vec::new() } };
        assert(map@ =~= Seq::<(Seq<char>, V)>::empty());
        map
    }

    /// The number of names. The names of a map are distinct.
    pub fn len(&self) -> (len: usize)
        ensures
            len == self@.len(),
            distinct_keys(self@),
    {
        proof {
            use_type_invariant(self);
            self.slots.lemma_entries();
        }
        self.slots.values.len()
    }

    /// Tells whether the map knows the name.
    pub fn contains_key(&self, key: &str) -> (known: bool)
        ensures
            known == has_key(self@, key@),
    {
        proof {
            use_type_invariant(self);
            self.slots.lemma_entries();
        }
        index_map_get(&self.slots.index, key).is_some()
    }

    /// The value of a name.
    pub fn get(&self, key: &str) -> (value: Option<&V>)
        ensures
            match value {
                Some(v) => lookup(self@, key@) == Some(*v),
                None => lookup(self@, key@) is None,
            },
    {
        proof {
            use_type_invariant(self);
            self.slots.lemma_entries();
        }
        match index_map_get(&self.slots.index, key) {
            Some(slot) => {
                assert(slot_of(self@, key@) == slot);
                Some(&self.slots.values[slot])
            },
            None => None,
        }
    }

    /// The name at a position.
    pub fn key_at(&self, position: usize) -> (key: &String)
        requires
            position < self@.len(),
        ensures
            key@ == self@[position as int].0,
    {
        proof {
            use_type_invariant(self);
        }
        index_map_key_at(&self.slots.index, position).unwrap()
    }

    /// The value at a position.
    pub fn value_at(&self, position: usize) -> (value: &V)
        requires
            position < self@.len(),
        ensures
            *value == self@[position as int].1,
    {
        proof {
            use_type_invariant(self);
        }
        &self.slots.values[position]
    }

    /// Files a value under a name: a known name keeps its place, an unknown one comes last. The
    /// names of a map are distinct.
    pub fn insert(&mut self, key: String, value: V)
        ensures
            final(self)@ == upsert(old(self)@, key@, value),
            distinct_keys(old(self)@),
    {
        proof {
            use_type_invariant(&*self);
        }
        let mut slots = Slots { index: index_map_new(), values: Vec::new() };
        std::mem::swap(&mut slots, &mut self.slots);
        let ghost before = slots;
        proof {
            before.lemma_entries();
        }
        match index_map_get(&slots.index, key.as_str()) {
            Some(slot) => {
                slots.values.set(slot, value);
                assert(slots.entries() =~= upsert(before.entries(), key@, value));
            },
            None => {
                let next: usize = slots.values.len();
                index_map_insert(&mut slots.index, key, next);
                slots.values.push(value);
                proof {
                    lemma_upsert_distinct(index_map_entries(before.index), key@, next);
                }
                assert(slots.entries() =~= upsert(before.entries(), key@, value));
            },
        }
        self.slots = slots;
    }

    /// The names with their values, in order.
    pub fn into_entries(self) -> (entries: Vec<(String, V)>)
        ensures
            pairs(entries@) == self@,
            distinct_keys(self@),
    {
        proof {
            use_type_invariant(&self);
            self.slots.lemma_entries();
        }
        let ghost all = self@;
        let ghost names = index_map_entries(self.slots.index);
        let Slots { index, values } = self.slots;
        let ghost given = values@;
        let keys = index_map_into_keys(index);
        let ghost key_texts = keys@;
        proof {
            assert(texts(key_texts).len() == keys_of(names).len());
            assert forall|i: int| 0 <= i < all.len() implies (#[trigger] all[i]) == (
                key_texts[i]@,
                given[i],
            ) by {
                assert(texts(key_texts)[i] == keys_of(names)[i]);
            }
        }
        let mut backwards: Vec<V> = Vec::new();
        let mut values_left = values;
        while values_left.len() > 0
            invariant
                values_left@ == given.take(values_left@.len() as int),
                values_left@.len() <= given.len(),
                backwards@.len() == given.len() - values_left@.len(),
                forall|i: int|
                    0 <= i < backwards@.len() ==> #[trigger] backwards@[i] == given[given.len() - 1
                        - i],
            decreases values_left@.len(),
        {
            let value = values_left.pop().unwrap();
            backwards.push(value);
            assert(values_left@ =~= given.take(values_left@.len() as int));
        }
        let mut entries: Vec<(String, V)> = Vec::new();
        for key in it: keys
            invariant
                it.seq() == key_texts,
                given.len() == all.len(),
                key_texts.len() == given.len(),
                forall|i: int|
                    0 <= i < all.len() ==> (#[trigger] all[i]) == (key_texts[i]@, given[i]),
                backwards@.len() == given.len() - it.index(),
                forall|i: int|
                    0 <= i < backwards@.len() ==> #[trigger] backwards@[i] == given[given.len() - 1
                        - i],
                entries@.map_values(|e: (String, V)| (e.0@, e.1)) == all.take(it.index()),
        {
            let value = backwards.pop().unwrap();
            let ghost so_far = entries@;
            entries.push((key, value));
            proof {
                let i = it.index() as int;
                let plain = |e: (String, V)| (e.0@, e.1);
                assert(so_far.map_values(plain).len() == so_far.len());
                assert forall|j: int| 0 <= j <= i implies #[trigger] entries@.map_values(plain)[j]
                    == all[j] by {
                    if j < i {
                        assert(so_far.map_values(plain)[j] == all.take(i)[j]);
                    }
                }
                assert(entries@.map_values(|e: (String, V)| (e.0@, e.1)) =~= all.take(i + 1));
            }
        }
        assert(all.take(all.len() as int) =~= all);
        entries
    }

    /// The map that a list of entries makes when each is filed, from the first to the last.
    pub fn from_entries(entries: Vec<(String, V)>) -> (map: Self)
        ensures
            map@ == extended(Seq::empty(), pairs(entries@)),
    {
        let mut map = ComponentMap::new();
        map.extend_entries(entries);
        map
    }

    /// Files every entry of a list, from the first to the last.
    pub fn extend_entries(&mut self, entries: Vec<(String, V)>)
        ensures
            final(self)@ == extended(old(self)@, pairs(entries@)),
            distinct_keys(old(self)@),
    {
        proof {
            use_type_invariant(&*self);
            self.slots.lemma_entries();
        }
        let ghost before = self@;
        let ghost list = entries@;
        let ghost given = pairs(list);
        assert(given.take(0).len() == 0);
        for entry in it: entries
            invariant
                it.seq() == list,
                given == pairs(list),
                self@ == extended(before, given.take(it.index())),
        {
            proof {
                let i = it.index() as int;
                assert(given.take(i + 1).drop_last() =~= given.take(i));
                assert(given[i] == (list[i].0@, list[i].1));
            }
            self.insert(entry.0, entry.1);
        }
        proof {
            assert(given.take(given.len() as int) =~= given);
        }
    }

    /// Files every entry of another map, from the first to the last.
    pub fn extend(&mut self, later: ComponentMap<V>)
        ensures
            final(self)@ == extended(old(self)@, later@),
            distinct_keys(old(self)@),
    {
        let entries = later.into_entries();
        self.extend_entries(entries);
    }
}

} // verus!

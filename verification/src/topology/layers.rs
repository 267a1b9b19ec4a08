//! The order in which the schemas of transforms are worked out.
//!
//! A transform can only be looked at once the transforms that it reads from have been. Transforms
//! are therefore put into layers: those of a layer read from sources and from earlier layers only,
//! so a whole layer can be worked on at once.

use vstd::prelude::*;

use crate::config::{views, OutputId, OutputIdView};
use crate::ordered::{distinct_keys, has_key, lemma_slot_unique, lookup, slot_of, ComponentMap};

verus! {

/// A transform, by its name and by what it reads from.
pub struct Reader<'a> {
    pub key: &'a String,
    pub inputs: &'a Vec<OutputId>,
}

impl View for Reader<'_> {
    type V = (Seq<char>, Seq<OutputIdView>);

    open spec fn view(&self) -> (Seq<char>, Seq<OutputIdView>) {
        (self.key@, views(self.inputs@))
    }
}

/// The transform at `i` reads from the transform at `j`. A name that is also that of a source
/// stands for the source.
pub open spec fn waits_for<S>(
    readers: Seq<(Seq<char>, Seq<OutputIdView>)>,
    sources: Seq<(Seq<char>, S)>,
    i: int,
    j: int,
) -> bool {
    &&& 0 <= i < readers.len()
    &&& 0 <= j < readers.len()
    &&& !has_key(sources, readers[j].0)
    &&& exists|k: int|
        0 <= k < readers[i].1.len() && #[trigger] readers[i].1[k].component == readers[j].0
}

/// The transform at `i` stands in one of the first `n` layers: all that it reads from stands in
/// one of the first `n - 1`.
pub open spec fn settled<S>(
    readers: Seq<(Seq<char>, Seq<OutputIdView>)>,
    sources: Seq<(Seq<char>, S)>,
    n: nat,
    i: int,
) -> bool
    decreases n,
{
    &&& n > 0
    &&& 0 <= i < readers.len()
    &&& forall|j: int| #[trigger]
        waits_for(readers, sources, i, j) ==> settled(readers, sources, (n - 1) as nat, j)
}

/// What stands in one of the first layers stands in one of the first, and one more.
proof fn lemma_settled_grows<S>(
    readers: Seq<(Seq<char>, Seq<OutputIdView>)>,
    sources: Seq<(Seq<char>, S)>,
    n: nat,
    i: int,
)
    requires
        settled(readers, sources, n, i),
    ensures
        settled(readers, sources, n + 1, i),
    decreases n,
{
    assert forall|j: int| #[trigger] waits_for(readers, sources, i, j) implies settled(
        readers,
        sources,
        n,
        j,
    ) by {
        lemma_settled_grows(readers, sources, (n - 1) as nat, j);
    }
}

/// What stands in one of the first `n` layers stands in one of the first `m`, for a greater `m`.
proof fn lemma_settled_stays<S>(
    readers: Seq<(Seq<char>, Seq<OutputIdView>)>,
    sources: Seq<(Seq<char>, S)>,
    n: nat,
    m: nat,
    i: int,
)
    requires
        settled(readers, sources, n, i),
        n <= m,
    ensures
        settled(readers, sources, m, i),
    decreases m - n,
{
    if n < m {
        lemma_settled_grows(readers, sources, n, i);
        lemma_settled_stays(readers, sources, n + 1, m, i);
    }
}

/// How many transforms have no layer yet.
spec fn unplaced(layers: Seq<Option<usize>>) -> nat
    decreases layers.len(),
{
    if layers.len() == 0 {
        0
    } else {
        unplaced(layers.drop_last()) + if layers.last() is None {
            1nat
        } else {
            0nat
        }
    }
}

proof fn lemma_unplaced(layers: Seq<Option<usize>>)
    ensures
        unplaced(layers) <= layers.len(),
        unplaced(layers) == 0 ==> forall|i: int|
            0 <= i < layers.len() ==> #[trigger] layers[i] is Some,
    decreases layers.len(),
{
    if layers.len() > 0 {
        lemma_unplaced(layers.drop_last());
        if unplaced(layers) == 0 {
            assert forall|i: int| 0 <= i < layers.len() implies #[trigger] layers[i] is Some by {
                if i < layers.len() - 1 {
                    assert(layers.drop_last()[i] is Some);
                }
            }
        }
    }
}

/// The transform at `i` finds a place in some layer. One that reads from itself, directly or
/// through others, or from such a transform, never does.
pub open spec fn settles<S>(
    readers: Seq<(Seq<char>, Seq<OutputIdView>)>,
    sources: Seq<(Seq<char>, S)>,
    i: int,
) -> bool {
    exists|n: nat| #[trigger] settled(readers, sources, n, i)
}

/// The layers of a list of transforms, and how many there are. The transforms that never find a
/// place share one layer, the last, so that they too are worked on, all at once.
pub open spec fn layered<S>(
    readers: Seq<(Seq<char>, Seq<OutputIdView>)>,
    sources: Seq<(Seq<char>, S)>,
    layers: Seq<usize>,
    count: nat,
) -> bool {
    &&& layers.len() == readers.len()
    // Every transform stands in a layer.
    &&& forall|i: int| 0 <= i < layers.len() ==> #[trigger] layers[i] < count
    // One that finds a place stands in the first layer in which it has one.
    &&& forall|i: int|
        0 <= i < layers.len() && #[trigger] settles(readers, sources, i) ==> settled(
            readers,
            sources,
            (layers[i] + 1) as nat,
            i,
        ) && !settled(readers, sources, layers[i] as nat, i)
    // The others stand in the last layer, which is theirs alone.
    &&& forall|i: int|
        0 <= i < layers.len() && !#[trigger] settles(readers, sources, i) ==> layers[i] + 1 == count
    &&& forall|i: int, j: int|
        0 <= i < layers.len() && 0 <= j < layers.len() && #[trigger] settles(readers, sources, i)
            && !#[trigger] settles(readers, sources, j) ==> layers[i] < layers[j]
    // No layer is empty.
    &&& forall|l: int| 0 <= l < count ==> #[trigger] is_used(layers, l)
}

/// Some transform stands in the layer.
pub open spec fn is_used(layers: Seq<usize>, layer: int) -> bool {
    exists|i: int| 0 <= i < layers.len() && #[trigger] layers[i] == layer
}

/// Tells whether all that a transform reads from has a layer.
fn is_ready<S>(
    readers: &Vec<Reader<'_>>,
    sources: &ComponentMap<S>,
    positions: &ComponentMap<usize>,
    layers: &Vec<Option<usize>>,
    i: usize,
) -> (ready: bool)
    requires
        i < readers@.len(),
        layers@.len() == readers@.len(),
        distinct_keys(views(readers@)),
        forall|key: Seq<char>|
            #![trigger lookup(positions@, key)]
            match lookup(positions@, key) {
                Some(j) => j < readers@.len() && readers@[j as int].key@ == key,
                None => !has_key(views(readers@), key),
            },
    ensures
        ready == (forall|j: int| #[trigger]
            waits_for(views(readers@), sources@, i as int, j) ==> layers@[j] is Some),
{
    let ghost all = views(readers@);
    let inputs = readers[i].inputs;
    assert(all[i as int].1 == views(inputs@));
    let mut k: usize = 0;
    while k < inputs.len()
        invariant
            k <= inputs@.len(),
            i < readers@.len(),
            layers@.len() == readers@.len(),
            all == views(readers@),
            all[i as int].1 == views(inputs@),
            distinct_keys(all),
            forall|key: Seq<char>|
                #![trigger lookup(positions@, key)]
                match lookup(positions@, key) {
                    Some(j) => j < readers@.len() && readers@[j as int].key@ == key,
                    None => !has_key(all, key),
                },
            forall|m: int, j: int|
                0 <= m < k && 0 <= j < all.len() && !has_key(sources@, all[j].0)
                    && #[trigger] all[i as int].1[m].component == (#[trigger] all[j]).0
                    ==> layers@[j] is Some,
        decreases inputs@.len() - k,
    {
        let component = &inputs[k].component;
        assert(all[i as int].1[k as int] == inputs@[k as int]@);
        if !sources.contains_key(component.as_str()) {
            match positions.get(component.as_str()) {
                Some(j) => {
                    assert(all[*j as int].0 == component@);
                    if layers[*j].is_none() {
                        assert(all[i as int].1[k as int].component == all[*j as int].0);
                        assert(waits_for(all, sources@, i as int, *j as int));
                        return false;
                    }
                    assert forall|m: int| 0 <= m < all.len() && #[trigger] all[m].0
                        == component@ implies m == *j by {
                        lemma_slot_unique(all, m);
                        lemma_slot_unique(all, *j as int);
                    }
                },
                None => {
                    assert(!has_key(all, component@));
                },
            }
        }
        k += 1;
    }
    true
}

/// Files the position of each transform under its name.
fn index_readers(readers: &Vec<Reader<'_>>) -> (positions: ComponentMap<usize>)
    requires
        distinct_keys(views(readers@)),
    ensures
        forall|key: Seq<char>|
            #![trigger lookup(positions@, key)]
            match lookup(positions@, key) {
                Some(j) => j < readers@.len() && readers@[j as int].key@ == key,
                None => !has_key(views(readers@), key),
            },
{
    let ghost all = views(readers@);
    let mut positions: ComponentMap<usize> = ComponentMap::new();
    let mut i: usize = 0;
    while i < readers.len()
        invariant
            i <= readers@.len(),
            all == views(readers@),
            distinct_keys(all),
            positions@.len() == i,
            forall|m: int|
                0 <= m < i ==> (#[trigger] positions@[m]) == (all[m].0, m as usize),
        decreases readers@.len() - i,
    {
        assert(!has_key(positions@, all[i as int].0)) by {
            if has_key(positions@, all[i as int].0) {
                let m = slot_of(positions@, all[i as int].0);
                assert(positions@[m].0 == all[i as int].0);
                assert(all[m].0 != all[i as int].0);
            }
        }
        positions.insert(readers[i].key.clone(), i);
        i += 1;
    }
    proof {
        assert forall|key: Seq<char>|
            #![trigger lookup(positions@, key)]
            match lookup(positions@, key) {
                Some(j) => j < readers@.len() && readers@[j as int].key@ == key,
                None => !has_key(all, key),
            } by {
            if has_key(positions@, key) {
                let m = slot_of(positions@, key);
                assert(positions@[m].0 == key);
                assert(all[m].0 == readers@[m].key@);
            } else if has_key(all, key) {
                let m = slot_of(all, key);
                assert(all[m].0 == key);
                assert(positions@[m].0 == key);
            }
        }
    }
    positions
}

/// Puts transforms into layers, and tells how many layers are worked through.
pub fn assign_layers<S>(readers: &Vec<Reader<'_>>, sources: &ComponentMap<S>) -> (result: (
    Vec<usize>,
    usize,
))
    requires
        distinct_keys(views(readers@)),
    ensures
        layered(views(readers@), sources@, result.0@, result.1 as nat),
{
    let ghost all = views(readers@);
    let total: usize = readers.len();
    let positions = index_readers(readers);
    let mut layers: Vec<Option<usize>> = Vec::new();
    let mut left: usize = 0;
    while left < total
        invariant
            left <= total,
            layers@.len() == left,
            forall|i: int| 0 <= i < left ==> #[trigger] layers@[i] is None,
            unplaced(layers@) == left,
        decreases total - left,
    {
        let ghost so_far = layers@;
        layers.push(None);
        left += 1;
        assert(layers@.drop_last() =~= so_far);
    }
    let mut current: usize = 0;
    let mut progress: bool = true;
    assert forall|i: int| 0 <= i < all.len() implies #[trigger] layers@[i] is None by {}
    while progress && left > 0
        invariant
            total == readers@.len(),
            all == views(readers@),
            distinct_keys(all),
            layers@.len() == total,
            forall|key: Seq<char>|
                #![trigger lookup(positions@, key)]
                match lookup(positions@, key) {
                    Some(j) => j < readers@.len() && readers@[j as int].key@ == key,
                    None => !has_key(all, key),
                },
            left == unplaced(layers@),
            current + left <= total,
            forall|i: int|
                0 <= i < total ==> ((#[trigger] layers@[i] is Some) == settled(
                    all,
                    sources@,
                    current as nat,
                    i,
                )),
            forall|i: int|
                0 <= i < total && (#[trigger] layers@[i] is Some) ==> layers@[i]->0 < current
                    && settled(all, sources@, (layers@[i]->0 + 1) as nat, i) && !settled(
                    all,
                    sources@,
                    layers@[i]->0 as nat,
                    i,
                ),
            forall|l: int| 0 <= l < current ==> #[trigger] is_placed(layers@, l),
            !progress ==> forall|i: int|
                0 <= i < total && settled(all, sources@, (current + 1) as nat, i)
                    ==> #[trigger] layers@[i] is Some,
        decreases
            left,
            if progress {
                1int
            } else {
                0int
            },
    {
        let ghost before = layers@;
        let mut next: Vec<Option<usize>> = Vec::new();
        let mut still: usize = 0;
        let mut i: usize = 0;
        progress = false;
        while i < total
            invariant
                i <= total,
                total == readers@.len(),
                all == views(readers@),
                distinct_keys(all),
                layers@ == before,
                before.len() == total,
                forall|key: Seq<char>|
                    #![trigger lookup(positions@, key)]
                    match lookup(positions@, key) {
                        Some(j) => j < readers@.len() && readers@[j as int].key@ == key,
                        None => !has_key(all, key),
                    },
                next@.len() == i,
                still == unplaced(next@),
                still <= i,
                still <= unplaced(before.take(i as int)),
                progress == (still < unplaced(before.take(i as int))),
                progress ==> exists|m: int|
                    0 <= m < i && #[trigger] next@[m] == Some(current) && before[m] is None,
                forall|m: int|
                    0 <= m < i ==> #[trigger] next@[m] == (if before[m] is Some {
                        before[m]
                    } else if (forall|j: int| #[trigger]
                        waits_for(all, sources@, m, j) ==> before[j] is Some) {
                        Some(current)
                    } else {
                        None
                    }),
            decreases total - i,
        {
            let ghost so_far = next@;
            assert(before.take(i + 1).drop_last() =~= before.take(i as int));
            assert(before.take(i + 1).last() == before[i as int]);
            if layers[i].is_some() {
                next.push(layers[i]);
            } else if is_ready(readers, sources, &positions, &layers, i) {
                next.push(Some(current));
                progress = true;
                assert(next@[i as int] == Some(current));
            } else {
                next.push(None);
                still += 1;
            }
            proof {
                assert(next@.drop_last() =~= so_far);
                assert forall|m: int| 0 <= m < i implies next@[m] == so_far[m] by {}
            }
            i += 1;
        }
        assert(before.take(total as int) =~= before);
        proof {
            let n = current as nat;
            assert forall|m: int| 0 <= m < total implies ((#[trigger] next@[m] is Some) == settled(
                all,
                sources@,
                n + 1,
                m,
            )) by {
                if before[m] is Some {
                    lemma_settled_grows(all, sources@, n, m);
                } else {
                    assert(!settled(all, sources@, n, m));
                }
            }
        }
        if progress {
            proof {
                assert forall|l: int| 0 <= l < current + 1 implies #[trigger] is_placed(
                    next@,
                    l,
                ) by {
                    if l < current {
                        assert(is_placed(before, l));
                        let m = choose|m: int|
                            0 <= m < before.len() && #[trigger] before[m] == Some(l as usize);
                        assert(next@[m] == before[m]);
                    } else {
                        let m = choose|m: int|
                            0 <= m < total && #[trigger] next@[m] == Some(current)
                                && before[m] is None;
                        assert(next@[m] == Some(l as usize));
                    }
                }
            }
            layers = next;
            left = still;
            current += 1;
        } else {
            proof {
                assert forall|m: int| 0 <= m < total && settled(
                    all,
                    sources@,
                    (current + 1) as nat,
                    m,
                ) implies #[trigger] layers@[m] is Some by {
                    if layers@[m] is None {
                        assert(next@[m] is Some);
                        lemma_unplaced_less(next@, before, m);
                    }
                }
            }
        }
    }
    let ghost placed = layers@;
    proof {
        lemma_unplaced(placed);
        assert forall|j: int| #[trigger]
            settled(all, sources@, current as nat + 1, j) implies settled(
            all,
            sources@,
            current as nat,
            j,
        ) by {
            assert(placed[j] is Some);
        }
        assert forall|i: int|
            0 <= i < total && placed[i] is None implies !#[trigger] settles(
            all,
            sources@,
            i,
        ) by {
            assert forall|n: nat| !#[trigger] settled(all, sources@, n, i) by {
                lemma_closed(all, sources@, current as nat, n, i);
            }
        }
        assert forall|i: int|
            0 <= i < total && placed[i] is Some implies #[trigger] settles(all, sources@, i) by {
            assert(settled(all, sources@, (placed[i]->0 + 1) as nat, i));
        }
    }
    let mut result: Vec<usize> = Vec::new();
    let mut rest: bool = false;
    let mut i: usize = 0;
    while i < total
        invariant
            i <= total,
            total == layers@.len(),
            result@.len() == i,
            forall|m: int|
                0 <= m < i ==> #[trigger] result@[m] == (match layers@[m] {
                    Some(l) => l,
                    None => current,
                }),
            rest == exists|m: int| 0 <= m < i && #[trigger] layers@[m] is None,
        decreases total - i,
    {
        match layers[i] {
            Some(l) => {
                result.push(l);
            },
            None => {
                result.push(current);
                rest = true;
                assert(layers@[i as int] is None);
            },
        }
        i += 1;
    }
    proof {
        assert forall|l: int| 0 <= l < current implies #[trigger] is_used(result@, l) by {
            assert(is_placed(placed, l));
            let m = choose|m: int|
                0 <= m < placed.len() && #[trigger] placed[m] == Some(l as usize);
            assert(result@[m] == l);
        }
    }
    if rest {
        proof {
            let m = choose|m: int| 0 <= m < placed.len() && #[trigger] placed[m] is None;
            assert(left > 0);
            assert(result@[m] == current);
            assert(is_used(result@, current as int));
        }
        (result, current + 1)
    } else {
        (result, current)
    }
}

/// Some transform was put into the layer.
spec fn is_placed(layers: Seq<Option<usize>>, layer: int) -> bool {
    exists|i: int| 0 <= i < layers.len() && #[trigger] layers[i] == Some(layer as usize)
}

/// Placing one transform more leaves fewer to place.
proof fn lemma_unplaced_less(next: Seq<Option<usize>>, before: Seq<Option<usize>>, at: int)
    requires
        next.len() == before.len(),
        forall|i: int| 0 <= i < next.len() && #[trigger] next[i] is None ==> before[i] is None,
        0 <= at < next.len(),
        before[at] is None,
        next[at] is Some,
    ensures
        unplaced(next) < unplaced(before),
    decreases next.len(),
{
    let a = next.drop_last();
    let b = before.drop_last();
    assert forall|i: int| 0 <= i < a.len() && #[trigger] a[i] is None implies b[i] is None by {
        assert(next[i] is None);
    }
    if at < next.len() - 1 {
        lemma_unplaced_less(a, b, at);
        assert(next.last() is None ==> before.last() is None) by {
            assert(next[next.len() - 1] == next.last());
        }
    } else {
        lemma_unplaced_more(a, b);
    }
}

proof fn lemma_unplaced_more(next: Seq<Option<usize>>, before: Seq<Option<usize>>)
    requires
        next.len() == before.len(),
        forall|i: int| 0 <= i < next.len() && #[trigger] next[i] is None ==> before[i] is None,
    ensures
        unplaced(next) <= unplaced(before),
    decreases next.len(),
{
    if next.len() > 0 {
        let a = next.drop_last();
        let b = before.drop_last();
        assert forall|i: int| 0 <= i < a.len() && #[trigger] a[i] is None implies b[i] is None by {
            assert(next[i] is None);
        }
        lemma_unplaced_more(a, b);
        assert(next[next.len() - 1] == next.last());
    }
}

/// Where one layer more would hold nothing, no number of layers more would.
proof fn lemma_closed<S>(
    readers: Seq<(Seq<char>, Seq<OutputIdView>)>,
    sources: Seq<(Seq<char>, S)>,
    last: nat,
    n: nat,
    i: int,
)
    requires
        forall|j: int| #[trigger]
            settled(readers, sources, last + 1, j) ==> settled(readers, sources, last, j),
        !settled(readers, sources, last, i),
    ensures
        !settled(readers, sources, n, i),
    decreases n,
{
    if settled(readers, sources, n, i) {
        if n <= last {
            lemma_settled_stays(readers, sources, n, last, i);
        } else {
            assert forall|j: int| #[trigger] waits_for(readers, sources, i, j) implies settled(
                readers,
                sources,
                last,
                j,
            ) by {
                if !settled(readers, sources, last, j) {
                    lemma_closed(readers, sources, last, (n - 1) as nat, j);
                }
            }
            assert(settled(readers, sources, last + 1, i));
        }
    }
}

// ---------------------------------------------------------------------------------------------
// What holds of layers.
// ---------------------------------------------------------------------------------------------

/// What a transform that finds a place reads from stands in an earlier layer.
pub proof fn law_inputs_come_first<S>(
    readers: Seq<(Seq<char>, Seq<OutputIdView>)>,
    sources: Seq<(Seq<char>, S)>,
    layers: Seq<usize>,
    count: nat,
    i: int,
    j: int,
)
    requires
        layered(readers, sources, layers, count),
        waits_for(readers, sources, i, j),
        settles(readers, sources, i),
    ensures
        settles(readers, sources, j),
        layers[j] < layers[i],
{
    assert(settled(readers, sources, (layers[i] + 1) as nat, i));
    assert(settled(readers, sources, layers[i] as nat, j));
    assert(settles(readers, sources, j));
    if layers[j] >= layers[i] {
        lemma_settled_stays(readers, sources, layers[i] as nat, layers[j] as nat, j);
    }
}

/// A transform stands in the earliest layer that it can: one that finds a place, but not in the
/// first layer, reads from a transform of the layer just before its own.
pub proof fn law_layers_are_early<S>(
    readers: Seq<(Seq<char>, Seq<OutputIdView>)>,
    sources: Seq<(Seq<char>, S)>,
    layers: Seq<usize>,
    count: nat,
    i: int,
)
    requires
        layered(readers, sources, layers, count),
        0 <= i < readers.len(),
        settles(readers, sources, i),
        0 < layers[i],
    ensures
        exists|j: int| #[trigger]
            waits_for(readers, sources, i, j) && layers[j] == layers[i] - 1,
{
    let l = layers[i] as nat;
    assert(!settled(readers, sources, l, i));
    let j = choose|j: int| #[trigger]
        waits_for(readers, sources, i, j) && !settled(readers, sources, (l - 1) as nat, j);
    law_inputs_come_first(readers, sources, layers, count, i, j);
    if layers[j] < l - 1 {
        lemma_settled_stays(readers, sources, (layers[j] + 1) as nat, (l - 1) as nat, j);
    }
}

/// A transform that never finds a place reads from a transform that never does, which stands
/// beside it in the last layer, and so on for ever.
pub proof fn law_rest_is_circular<S>(
    readers: Seq<(Seq<char>, Seq<OutputIdView>)>,
    sources: Seq<(Seq<char>, S)>,
    layers: Seq<usize>,
    count: nat,
    i: int,
)
    requires
        layered(readers, sources, layers, count),
        0 <= i < readers.len(),
        !settles(readers, sources, i),
    ensures
        exists|j: int| #[trigger]
            waits_for(readers, sources, i, j) && !settles(readers, sources, j) && layers[j]
                == layers[i],
{
    if forall|j: int| #[trigger]
        waits_for(readers, sources, i, j) ==> settles(readers, sources, j) {
        assert forall|j: int| #[trigger] waits_for(readers, sources, i, j) implies settled(
            readers,
            sources,
            count,
            j,
        ) by {
            assert(settles(readers, sources, j));
            lemma_settled_stays(readers, sources, (layers[j] + 1) as nat, count, j);
        }
        assert(settled(readers, sources, count + 1, i));
    }
}

/// Where no transform reads from itself, directly or through others (each reads from transforms of
/// a lower rank only), every transform finds a place.
pub proof fn law_no_circle_no_rest<S>(
    readers: Seq<(Seq<char>, Seq<OutputIdView>)>,
    sources: Seq<(Seq<char>, S)>,
    layers: Seq<usize>,
    count: nat,
    rank: spec_fn(int) -> nat,
    i: int,
)
    requires
        layered(readers, sources, layers, count),
        forall|a: int, b: int| #[trigger]
            waits_for(readers, sources, a, b) ==> rank(b) < rank(a),
        0 <= i < readers.len(),
    ensures
        settles(readers, sources, i),
    decreases rank(i),
{
    if !settles(readers, sources, i) {
        law_rest_is_circular(readers, sources, layers, count, i);
        let j = choose|j: int| #[trigger]
            waits_for(readers, sources, i, j) && !settles(readers, sources, j);
        law_no_circle_no_rest(readers, sources, layers, count, rank, j);
    }
}

/// There is one way only to put transforms into layers.
pub proof fn law_layers_are_unique<S>(
    readers: Seq<(Seq<char>, Seq<OutputIdView>)>,
    sources: Seq<(Seq<char>, S)>,
    layers: Seq<usize>,
    count: nat,
    others: Seq<usize>,
    other_count: nat,
)
    requires
        layered(readers, sources, layers, count),
        layered(readers, sources, others, other_count),
    ensures
        layers == others,
        count == other_count,
{
    assert forall|i: int|
        0 <= i < layers.len() && #[trigger] settles(readers, sources, i) implies layers[i]
        == others[i] by {
        lemma_same_place(readers, sources, layers, count, others, other_count, i);
    }
    lemma_no_more_layers(readers, sources, layers, count, others, other_count);
    lemma_no_more_layers(readers, sources, others, other_count, layers, count);
    assert forall|i: int| 0 <= i < layers.len() implies layers[i] == others[i] by {
        if !settles(readers, sources, i) {
            assert(layers[i] + 1 == count);
            assert(others[i] + 1 == other_count);
        }
    }
    assert(layers =~= others);
}

proof fn lemma_same_place<S>(
    readers: Seq<(Seq<char>, Seq<OutputIdView>)>,
    sources: Seq<(Seq<char>, S)>,
    layers: Seq<usize>,
    count: nat,
    others: Seq<usize>,
    other_count: nat,
    i: int,
)
    requires
        layered(readers, sources, layers, count),
        layered(readers, sources, others, other_count),
        0 <= i < layers.len(),
        settles(readers, sources, i),
    ensures
        layers[i] == others[i],
{
    if layers[i] < others[i] {
        lemma_settled_stays(readers, sources, (layers[i] + 1) as nat, others[i] as nat, i);
    }
    if others[i] < layers[i] {
        lemma_settled_stays(readers, sources, (others[i] + 1) as nat, layers[i] as nat, i);
    }
}

proof fn lemma_no_more_layers<S>(
    readers: Seq<(Seq<char>, Seq<OutputIdView>)>,
    sources: Seq<(Seq<char>, S)>,
    layers: Seq<usize>,
    count: nat,
    others: Seq<usize>,
    other_count: nat,
)
    requires
        layered(readers, sources, layers, count),
        layered(readers, sources, others, other_count),
    ensures
        count <= other_count,
{
    if count > other_count {
        assert(is_used(layers, count - 1));
        let i = choose|i: int| 0 <= i < layers.len() && #[trigger] layers[i] == count - 1;
        if settles(readers, sources, i) {
            lemma_same_place(readers, sources, layers, count, others, other_count, i);
        }
        assert(others[i] + 1 == other_count);
        assert(is_used(layers, other_count - 1));
        let j = choose|j: int| 0 <= j < layers.len() && #[trigger] layers[j] == other_count - 1;
        assert(settles(readers, sources, j));
        lemma_same_place(readers, sources, layers, count, others, other_count, j);
        assert(others[j] < others[i]);
    }
}

/// One of the inputs of the transform at `i` is an output of the transform at `j`, and no source
/// has that name.
pub open spec fn has_input_from<S>(
    readers: Seq<Reader<'_>>,
    sources: Seq<(Seq<char>, S)>,
    i: int,
    j: int,
) -> bool {
    &&& 0 <= i < readers.len()
    &&& 0 <= j < readers.len()
    &&& exists|k: int|
        0 <= k < readers[i].inputs@.len() && (#[trigger] readers[i].inputs@[k]).component@
            == readers[j].key@
    &&& forall|s: int| 0 <= s < sources.len() ==> (#[trigger] sources[s]).0 != readers[j].key@
}

proof fn lemma_has_input_from<S>(
    readers: Seq<Reader<'_>>,
    sources: Seq<(Seq<char>, S)>,
    i: int,
    j: int,
)
    ensures
        has_input_from(readers, sources, i, j) == waits_for(views(readers), sources, i, j),
{
    let all = views(readers);
    if 0 <= i < readers.len() && 0 <= j < readers.len() {
        assert(all[i] == readers[i]@);
        assert(all[j].0 == readers[j].key@);
        let inputs = readers[i].inputs@;
        assert forall|k: int| 0 <= k < inputs.len() implies #[trigger] all[i].1[k].component
            == inputs[k].component@ by {}
        if exists|k: int|
            0 <= k < inputs.len() && (#[trigger] inputs[k]).component@ == readers[j].key@ {
            let k = choose|k: int|
                0 <= k < inputs.len() && (#[trigger] inputs[k]).component@ == readers[j].key@;
            assert(all[i].1[k].component == all[j].0);
        }
    }
}

/// The layer has a transform.
pub open spec fn has_member(layers: Seq<usize>, layer: int) -> bool {
    exists|i: int| 0 <= i < layers.len() && #[trigger] layers[i] == layer
}

/// Every transform is put into a layer, and no layer is empty. A transform stands in a later layer
/// than all that it reads from, or in the last layer beside it; and in no later layer than just
/// after one of those that it reads from.
pub proof fn law_layers<S>(
    readers: Vec<Reader<'_>>,
    sources: ComponentMap<S>,
    layers: Vec<usize>,
    count: usize,
)
    requires
        call_ensures(assign_layers::<S>, (&readers, &sources), (layers, count)),
    ensures
        layers@.len() == readers@.len(),
        forall|i: int| 0 <= i < layers@.len() ==> #[trigger] layers@[i] < count,
        forall|l: int| 0 <= l < count ==> #[trigger] has_member(layers@, l),
        forall|i: int, j: int| #[trigger]
            has_input_from(readers@, sources@, i, j) ==> layers@[j] < layers@[i] || (layers@[i] + 1
                == count && layers@[j] + 1 == count),
        forall|i: int|
            0 <= i < layers@.len() && 0 < #[trigger] layers@[i] ==> exists|j: int| #[trigger]
                has_input_from(readers@, sources@, i, j) && layers@[j] + 1 >= layers@[i],
{
    let all = views(readers@);
    assert forall|i: int, j: int| #[trigger]
        has_input_from(readers@, sources@, i, j) == waits_for(all, sources@, i, j) by {
        lemma_has_input_from(readers@, sources@, i, j);
    }
    assert forall|l: int| 0 <= l < count implies #[trigger] has_member(layers@, l) by {
        assert(is_used(layers@, l));
    }
    assert forall|i: int, j: int| #[trigger]
        has_input_from(readers@, sources@, i, j) implies layers@[j] < layers@[i] || (layers@[i] + 1
        == count && layers@[j] + 1 == count) by {
        assert(waits_for(all, sources@, i, j));
        if settles(all, sources@, i) {
            law_inputs_come_first(all, sources@, layers@, count as nat, i, j);
        } else {
            assert(layers@[i] + 1 == count);
            if settles(all, sources@, j) {
                assert(layers@[j] < layers@[i]);
            }
        }
    }
    assert forall|i: int|
        0 <= i < layers@.len() && 0 < #[trigger] layers@[i] implies exists|j: int| #[trigger]
        has_input_from(readers@, sources@, i, j) && layers@[j] + 1 >= layers@[i] by {
        if settles(all, sources@, i) {
            law_layers_are_early(all, sources@, layers@, count as nat, i);
            let j = choose|j: int| #[trigger]
                waits_for(all, sources@, i, j) && layers@[j] == layers@[i] - 1;
            assert(has_input_from(readers@, sources@, i, j));
        } else {
            law_rest_is_circular(all, sources@, layers@, count as nat, i);
            let j = choose|j: int| #[trigger]
                waits_for(all, sources@, i, j) && !settles(all, sources@, j) && layers@[j]
                    == layers@[i];
            assert(has_input_from(readers@, sources@, i, j));
        }
    }
}

/// Where no transform reads from itself, directly or through others, each stands in a later layer
/// than all that it reads from, and just after the latest of them.
pub proof fn law_layers_without_circles<S>(
    readers: Vec<Reader<'_>>,
    sources: ComponentMap<S>,
    layers: Vec<usize>,
    count: usize,
    rank: spec_fn(int) -> nat,
)
    requires
        call_ensures(assign_layers::<S>, (&readers, &sources), (layers, count)),
        forall|i: int, j: int| #[trigger]
            has_input_from(readers@, sources@, i, j) ==> rank(j) < rank(i),
    ensures
        forall|i: int, j: int| #[trigger]
            has_input_from(readers@, sources@, i, j) ==> layers@[j] < layers@[i],
        forall|i: int|
            0 <= i < layers@.len() && 0 < #[trigger] layers@[i] ==> exists|j: int| #[trigger]
                has_input_from(readers@, sources@, i, j) && layers@[j] + 1 == layers@[i],
{
    let all = views(readers@);
    assert forall|i: int, j: int| #[trigger]
        has_input_from(readers@, sources@, i, j) == waits_for(all, sources@, i, j) by {
        lemma_has_input_from(readers@, sources@, i, j);
    }
    assert forall|i: int, j: int| #[trigger] waits_for(all, sources@, i, j) implies rank(j) < rank(
        i,
    ) by {
        assert(has_input_from(readers@, sources@, i, j));
    }
    assert forall|i: int, j: int| #[trigger]
        has_input_from(readers@, sources@, i, j) implies layers@[j] < layers@[i] by {
        assert(waits_for(all, sources@, i, j));
        law_no_circle_no_rest(all, sources@, layers@, count as nat, rank, i);
        law_inputs_come_first(all, sources@, layers@, count as nat, i, j);
    }
    assert forall|i: int|
        0 <= i < layers@.len() && 0 < #[trigger] layers@[i] implies exists|j: int| #[trigger]
        has_input_from(readers@, sources@, i, j) && layers@[j] + 1 == layers@[i] by {
        law_no_circle_no_rest(all, sources@, layers@, count as nat, rank, i);
        law_layers_are_early(all, sources@, layers@, count as nat, i);
        let j = choose|j: int| #[trigger]
            waits_for(all, sources@, i, j) && layers@[j] == layers@[i] - 1;
        assert(has_input_from(readers@, sources@, i, j));
    }
}

/// Transforms each of which reads from another of them never find a place, and stand in the last
/// layer.
pub proof fn law_circles_come_last<S>(
    readers: Vec<Reader<'_>>,
    sources: ComponentMap<S>,
    layers: Vec<usize>,
    count: usize,
    circle: Set<int>,
    i: int,
)
    requires
        call_ensures(assign_layers::<S>, (&readers, &sources), (layers, count)),
        forall|a: int| #[trigger]
            circle.contains(a) ==> 0 <= a < readers@.len() && exists|b: int| #[trigger]
                has_input_from(readers@, sources@, a, b) && circle.contains(b),
        circle.contains(i),
    ensures
        layers@[i] + 1 == count,
{
    let all = views(readers@);
    if settles(all, sources@, i) {
        let n = choose|n: nat| #[trigger] settled(all, sources@, n, i);
        lemma_circle_never_settles(readers@, sources@, circle, n, i);
    }
}

proof fn lemma_circle_never_settles<S>(
    readers: Seq<Reader<'_>>,
    sources: Seq<(Seq<char>, S)>,
    circle: Set<int>,
    n: nat,
    i: int,
)
    requires
        forall|a: int| #[trigger]
            circle.contains(a) ==> 0 <= a < readers.len() && exists|b: int| #[trigger]
                has_input_from(readers, sources, a, b) && circle.contains(b),
        circle.contains(i),
    ensures
        !settled(views(readers), sources, n, i),
    decreases n,
{
    if n > 0 {
        let b = choose|b: int| #[trigger]
            has_input_from(readers, sources, i, b) && circle.contains(b);
        lemma_has_input_from(readers, sources, i, b);
        lemma_circle_never_settles(readers, sources, circle, (n - 1) as nat, b);
    }
}

} // verus!

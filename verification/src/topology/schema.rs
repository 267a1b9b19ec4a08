//! The schemas that transforms are handed, worked out layer by layer.

use vstd::prelude::*;

use crate::config::{OutputId, OutputIdView};
use crate::keyed::{texted, KeyedMap};
use crate::ordered::{
    distinct_keys, extended, has_key, lemma_extended_lookup, lemma_upsert_distinct,
    lemma_upsert_has_key, lemma_upsert_lookup, lookup, slot_of, ComponentMap,
};
use crate::text::opt_text;
use crate::topology::layers::{law_inputs_come_first, layered, settles, waits_for};

verus! {

/// What a transform is handed: the outputs that it reads from, each with its schema.
pub type Definitions<F> = Vec<(OutputId, F)>;

/// The transforms of a layer, in order, by their positions.
pub open spec fn members_of(layers: Seq<usize>, layer: usize) -> Seq<usize>
    decreases layers.len(),
{
    if layers.len() == 0 {
        Seq::empty()
    } else {
        let front = members_of(layers.drop_last(), layer);
        if layers.last() == layer {
            front.push((layers.len() - 1) as usize)
        } else {
            front
        }
    }
}

/// Lists the transforms of a layer by their positions.
pub fn layer_members(layers: &Vec<usize>, layer: usize) -> (members: Vec<usize>)
    ensures
        members@ == members_of(layers@, layer),
{
    let mut members: Vec<usize> = Vec::new();
    assert(layers@.take(0).len() == 0);
    let mut i: usize = 0;
    while i < layers.len()
        invariant
            i <= layers@.len(),
            members@ == members_of(layers@.take(i as int), layer),
        decreases layers@.len() - i,
    {
        assert(layers@.take(i + 1).drop_last() =~= layers@.take(i as int));
        if layers[i] == layer {
            members.push(i);
        }
        i += 1;
    }
    assert(layers@.take(layers@.len() as int) =~= layers@);
    members
}

/// A transform stands among the members of its own layer and of no other.
pub proof fn law_members(layers: Seq<usize>, layer: usize, i: usize)
    requires
        layers.len() <= usize::MAX,
    ensures
        members_of(layers, layer).contains(i) <==> i < layers.len() && layers[i as int] == layer,
    decreases layers.len(),
{
    if layers.len() > 0 {
        let front = members_of(layers.drop_last(), layer);
        let all = members_of(layers, layer);
        law_members(layers.drop_last(), layer, i);
        if front.contains(i) {
            let k = choose|k: int| 0 <= k < front.len() && front[k] == i;
            assert(all[k] == i);
        }
        if i == layers.len() - 1 && layers.last() == layer {
            assert(all[all.len() - 1] == i);
        }
        if all.contains(i) && !front.contains(i) {
            let k = choose|k: int| 0 <= k < all.len() && all[k] == i;
            if k < front.len() {
                assert(front[k] == i);
            }
        }
    }
}

/// What working out the schemas of one transform came to.
pub type LayerResult<F, E> = (String, Result<Definitions<F>, E>);

/// The schemas that were worked out, under the names of their transforms.
pub open spec fn resolved_entries<F, E>(results: Seq<LayerResult<F, E>>) -> Seq<
    (Seq<char>, Definitions<F>),
>
    decreases results.len(),
{
    if results.len() == 0 {
        Seq::empty()
    } else {
        let front = resolved_entries(results.drop_last());
        match results.last().1 {
            Ok(definitions) => front.push((results.last().0@, definitions)),
            Err(_) => front,
        }
    }
}

/// Some schema could not be worked out.
pub open spec fn has_failure<F, E>(results: Seq<LayerResult<F, E>>) -> bool {
    exists|i: int| 0 <= i < results.len() && (#[trigger] results[i]).1 is Err
}

/// Where the work on the layers stands.
pub enum SchemaState<F> {
    /// A layer is to be worked out, with the schemas of the layers before it at hand.
    Layer { index: usize, definitions: ComponentMap<Definitions<F>> },
    /// Some schema could not be worked out: nothing is built.
    Failed,
    /// All layers have been worked out.
    Resolved { definitions: ComponentMap<Definitions<F>> },
}

#[verifier::ext_equal]
pub enum SchemaStateView<F> {
    Layer { index: nat, definitions: Seq<(Seq<char>, Definitions<F>)> },
    Failed,
    Resolved { definitions: Seq<(Seq<char>, Definitions<F>)> },
}

impl<F> View for SchemaState<F> {
    type V = SchemaStateView<F>;

    open spec fn view(&self) -> SchemaStateView<F> {
        match self {
            SchemaState::Layer { index, definitions } => SchemaStateView::Layer {
                index: *index as nat,
                definitions: definitions@,
            },
            SchemaState::Failed => SchemaStateView::Failed,
            SchemaState::Resolved { definitions } => SchemaStateView::Resolved {
                definitions: definitions@,
            },
        }
    }
}

/// Goes to a layer, or ends where there is none left.
pub open spec fn at_layer<F>(
    index: nat,
    count: nat,
    definitions: Seq<(Seq<char>, Definitions<F>)>,
) -> SchemaStateView<F> {
    if index < count {
        SchemaStateView::Layer { index, definitions }
    } else {
        SchemaStateView::Resolved { definitions }
    }
}

/// What follows on the results of a layer.
pub open spec fn schema_next<F, E>(
    state: SchemaStateView<F>,
    count: nat,
    results: Seq<LayerResult<F, E>>,
) -> SchemaStateView<F> {
    match state {
        SchemaStateView::Layer { index, definitions } => if has_failure(results) {
            SchemaStateView::Failed
        } else {
            at_layer(index + 1, count, extended(definitions, resolved_entries(results)))
        },
        _ => state,
    }
}

/// Starts the work on a number of layers.
pub fn start_schemas<F>(count: usize) -> (state: SchemaState<F>)
    ensures
        state@ == at_layer::<F>(0, count as nat, Seq::empty()),
{
    if count > 0 {
        SchemaState::Layer { index: 0, definitions: ComponentMap::new() }
    } else {
        SchemaState::Resolved { definitions: ComponentMap::new() }
    }
}

/// Takes the results of a layer, and says what comes next. A failure stops the work once the whole
/// layer has been looked at.
pub fn resolve_layer<F, E>(
    state: SchemaState<F>,
    count: usize,
    results: Vec<LayerResult<F, E>>,
) -> (next: SchemaState<F>)
    ensures
        next@ == schema_next(state@, count as nat, results@),
{
    match state {
        SchemaState::Layer { index, definitions } => {
            let ghost before = definitions@;
            let ghost all = results@;
            let mut filed = definitions;
            let mut failed: bool = false;
            assert(all.take(0).len() == 0);
            assert(resolved_entries(all.take(0)) =~= Seq::empty());
            for entry in it: results
                invariant
                    it.seq() == all,
                    filed@ == extended(before, resolved_entries(all.take(it.index()))),
                    failed == has_failure(all.take(it.index())),
            {
                proof {
                    let i = it.index() as int;
                    let taken = all.take(i + 1);
                    assert(taken.drop_last() =~= all.take(i));
                    assert(taken.last() == all[i]);
                    assert(has_failure(taken) == (has_failure(all.take(i)) || all[i].1 is Err)) by {
                        if has_failure(all.take(i)) {
                            let k = choose|k: int|
                                0 <= k < i && (#[trigger] all.take(i)[k]).1 is Err;
                            assert(taken[k].1 is Err);
                        }
                        if all[i].1 is Err {
                            assert(taken[i].1 is Err);
                        }
                        if has_failure(taken) && !(all[i].1 is Err) {
                            let k = choose|k: int|
                                0 <= k < taken.len() && (#[trigger] taken[k]).1 is Err;
                            assert(all.take(i)[k].1 is Err);
                        }
                    }
                    let front = resolved_entries(all.take(i));
                    if all[i].1 is Ok {
                        assert(resolved_entries(taken).drop_last() =~= front);
                    }
                }
                match entry.1 {
                    Ok(definitions) => {
                        filed.insert(entry.0, definitions);
                    },
                    Err(_) => {
                        failed = true;
                    },
                }
            }
            assert(all.take(all.len() as int) =~= all);
            if failed {
                SchemaState::Failed
            } else if count > 0 && index < count - 1 {
                SchemaState::Layer { index: index + 1, definitions: filed }
            } else {
                SchemaState::Resolved { definitions: filed }
            }
        },
        other => other,
    }
}

/// Where the work stands after the results of a list of layers.
pub open spec fn schema_run<F, E>(
    count: nat,
    results: Seq<Seq<LayerResult<F, E>>>,
) -> SchemaStateView<F>
    decreases results.len(),
{
    if results.len() == 0 {
        at_layer(0, count, Seq::empty())
    } else {
        schema_next(schema_run(count, results.drop_last()), count, results.last())
    }
}

/// The schemas of all layers, from the first to the last.
pub open spec fn all_resolved<F, E>(results: Seq<Seq<LayerResult<F, E>>>) -> Seq<
    (Seq<char>, Definitions<F>),
>
    decreases results.len(),
{
    if results.len() == 0 {
        Seq::empty()
    } else {
        extended(all_resolved(results.drop_last()), resolved_entries(results.last()))
    }
}

/// The first layer with a failure ends the work. Without one, as many layers are worked out as
/// there are, and the schemas of all of them are at hand.
pub proof fn law_schema_run<F, E>(count: nat, results: Seq<Seq<LayerResult<F, E>>>)
    requires
        results.len() <= count,
    ensures
        (schema_run(count, results) is Failed) == (exists|l: int|
            0 <= l < results.len() && #[trigger] has_failure(results[l])),
        !(schema_run(count, results) is Failed) ==> schema_run(count, results) == at_layer(
            results.len(),
            count,
            all_resolved(results),
        ),
    decreases results.len(),
{
    if results.len() > 0 {
        let front = results.drop_last();
        law_schema_run(count, front);
        let last = results.len() - 1;
        if exists|l: int| 0 <= l < front.len() && #[trigger] has_failure(front[l]) {
            let l = choose|l: int| 0 <= l < front.len() && #[trigger] has_failure(front[l]);
            assert(has_failure(results[l]));
        } else if has_failure(results.last()) {
            assert(has_failure(results[last]));
        } else {
            assert forall|l: int| 0 <= l < results.len() implies !#[trigger] has_failure(
                results[l],
            ) by {
                if l < last {
                    assert(!has_failure(front[l]));
                }
            }
        }
    }
}

/// The schemas of a layer whose transforms are not those of the layers before it: each transform
/// of the layer has its own, and those of the layers before stay as they are.
pub proof fn law_layer_is_filed<F, E>(
    definitions: Seq<(Seq<char>, Definitions<F>)>,
    results: Seq<LayerResult<F, E>>,
    key: Seq<char>,
)
    requires
        distinct_keys(definitions),
        distinct_keys(resolved_entries(results)),
    ensures
        lookup(extended(definitions, resolved_entries(results)), key) == (match lookup(
            resolved_entries(results),
            key,
        ) {
            Some(own) => Some(own),
            None => lookup(definitions, key),
        }),
{
    lemma_extended_lookup(definitions, resolved_entries(results), key);
}

/// Filing entries: the names of both lists are known afterwards.
proof fn lemma_extended_keys<V>(
    entries: Seq<(Seq<char>, V)>,
    later: Seq<(Seq<char>, V)>,
    key: Seq<char>,
)
    requires
        has_key(entries, key) || has_key(later, key),
    ensures
        has_key(extended(entries, later), key),
    decreases later.len(),
{
    if later.len() > 0 {
        let front = later.drop_last();
        let last = later.last();
        if has_key(entries, key) || has_key(front, key) {
            lemma_extended_keys(entries, front, key);
        } else {
            let k = slot_of(later, key);
            assert(later[k].0 == key);
            if k < later.len() - 1 {
                assert(front[k].0 == key);
            }
        }
        lemma_upsert_has_key(extended(entries, front), last.0, last.1, key);
    }
}

/// The results of each layer speak of every transform of the layer.
pub open spec fn covers<F, E>(
    readers: Seq<(Seq<char>, Seq<OutputIdView>)>,
    layers: Seq<usize>,
    results: Seq<Seq<LayerResult<F, E>>>,
) -> bool {
    forall|i: int|
        0 <= i < layers.len() && (#[trigger] layers[i]) < results.len() ==> has_key(
            resolved_entries(results[layers[i] as int]),
            readers[i].0,
        )
}

/// When a layer is worked out, the schemas of every transform that its transforms read from are at
/// hand. In the last layer, where transforms that never find a place wait for each other, this
/// holds of what they read from that finds one.
pub proof fn law_inputs_are_resolved<F, E, S>(
    readers: Seq<(Seq<char>, Seq<OutputIdView>)>,
    sources: Seq<(Seq<char>, S)>,
    layers: Seq<usize>,
    count: nat,
    results: Seq<Seq<LayerResult<F, E>>>,
    i: int,
    j: int,
)
    requires
        layered(readers, sources, layers, count),
        covers(readers, layers, results),
        waits_for(readers, sources, i, j),
        layers[i] == results.len(),
        settles(readers, sources, i) || settles(readers, sources, j),
    ensures
        has_key(all_resolved(results), readers[j].0),
{
    if settles(readers, sources, i) {
        law_inputs_come_first(readers, sources, layers, count, i, j);
    }
    lemma_stays_resolved(results, layers[j] as int, readers[j].0);
}

/// Once every layer has been worked out, the schemas of every transform are at hand, also of those
/// that read from themselves.
pub proof fn law_every_transform_is_resolved<F, E, S>(
    readers: Seq<(Seq<char>, Seq<OutputIdView>)>,
    sources: Seq<(Seq<char>, S)>,
    layers: Seq<usize>,
    count: nat,
    results: Seq<Seq<LayerResult<F, E>>>,
    i: int,
)
    requires
        layered(readers, sources, layers, count),
        covers(readers, layers, results),
        results.len() == count,
        0 <= i < readers.len(),
    ensures
        has_key(all_resolved(results), readers[i].0),
{
    lemma_stays_resolved(results, layers[i] as int, readers[i].0);
}

proof fn lemma_stays_resolved<F, E>(
    results: Seq<Seq<LayerResult<F, E>>>,
    layer: int,
    key: Seq<char>,
)
    requires
        0 <= layer < results.len(),
        has_key(resolved_entries(results[layer]), key),
    ensures
        has_key(all_resolved(results), key),
    decreases results.len(),
{
    let front = results.drop_last();
    if layer < results.len() - 1 {
        assert(front[layer] == results[layer]);
        lemma_stays_resolved(front, layer, key);
    }
    lemma_extended_keys(all_resolved(front), resolved_entries(results.last()), key);
}

/// The outputs of a transform have to be worked out ahead of the next layer where nobody has done
/// so yet and its own schemas are known; tells from which.
pub fn outputs_to_precompute<'a, F>(
    definitions: &'a ComponentMap<Definitions<F>>,
    cached: bool,
    key: &str,
) -> (from: Option<&'a Definitions<F>>)
    ensures
        match from {
            Some(f) => !cached && lookup(definitions@, key@) == Some(*f),
            None => cached || lookup(definitions@, key@) is None,
        },
{
    if cached {
        None
    } else {
        definitions.get(key)
    }
}

/// What a transform is handed where nothing was worked out for it: nothing.
pub open spec fn definitions_for<F>(
    definitions: Seq<(Seq<char>, Definitions<F>)>,
    key: Seq<char>,
) -> Seq<(OutputId, F)> {
    match lookup(definitions, key) {
        Some(own) => own@,
        None => Seq::empty(),
    }
}

/// Copies the schemas that a transform is handed.
pub fn input_definitions<F: Clone>(definitions: &ComponentMap<Definitions<F>>, key: &str) -> (copy:
    Definitions<F>)
    ensures
        copy@.len() == definitions_for(definitions@, key@).len(),
        forall|i: int|
            0 <= i < copy@.len() ==> (#[trigger] copy@[i]).0 == definitions_for(
                definitions@,
                key@,
            )[i].0 && cloned(definitions_for(definitions@, key@)[i].1, copy@[i].1),
{
    let mut copy: Definitions<F> = Vec::new();
    match definitions.get(key) {
        Some(own) => {
            let mut i: usize = 0;
            while i < own.len()
                invariant
                    i <= own@.len(),
                    copy@.len() == i,
                    forall|j: int|
                        0 <= j < i ==> (#[trigger] copy@[j]).0 == own@[j].0 && cloned(
                            own@[j].1,
                            copy@[j].1,
                        ),
                decreases own@.len() - i,
            {
                copy.push((own[i].0.clone(), own[i].1.clone()));
                i += 1;
            }
        },
        None => {},
    }
    copy
}

/// Each schema of a list, merged into what came before it.
pub open spec fn merge_steps<F, M: Fn(F, F) -> F>(
    definitions: Seq<F>,
    merge: M,
    steps: Seq<F>,
) -> bool {
    &&& steps.len() == definitions.len()
    &&& steps.len() > 0 ==> steps[0] == definitions[0]
    &&& forall|i: int|
        0 < i < steps.len() ==> call_ensures(
            merge,
            (steps[i - 1], definitions[i]),
            #[trigger] steps[i],
        )
}

/// A schema is what a list of schemas comes to when each is merged into what came before it. Where
/// the list is empty it is the one that allows anything.
pub open spec fn is_merge<F, M: Fn(F, F) -> F, A: FnOnce() -> F>(
    definitions: Seq<F>,
    merge: M,
    any: A,
    merged: F,
) -> bool {
    if definitions.len() == 0 {
        call_ensures(any, (), merged)
    } else {
        exists|steps: Seq<F>| #[trigger]
            merge_steps(definitions, merge, steps) && merged == steps.last()
    }
}

/// Merges the schemas that a transform is handed into one.
pub fn merged_definition<F, M: Fn(F, F) -> F, A: FnOnce() -> F>(
    definitions: Vec<F>,
    merge: M,
    any: A,
) -> (merged: F)
    requires
        forall|a: F, b: F| call_requires(merge, (a, b)),
        call_requires(any, ()),
    ensures
        is_merge(definitions@, merge, any, merged),
{
    let ghost all = definitions@;
    let ghost mut steps: Seq<F> = Seq::empty();
    let mut merged: Option<F> = None;
    for definition in it: definitions
        invariant
            it.seq() == all,
            forall|a: F, b: F| call_requires(merge, (a, b)),
            merged is Some == (it.index() > 0),
            merge_steps(all.take(it.index()), merge, steps),
            it.index() > 0 ==> merged->0 == steps.last(),
    {
        merged = match merged {
            Some(front) => Some(merge(front, definition)),
            None => Some(definition),
        };
        proof {
            steps = steps.push(merged->0);
        }
    }
    assert(all.take(all.len() as int) =~= all);
    match merged {
        Some(merged) => merged,
        None => any(),
    }
}

/// The schemas of the outputs of a source, for those outputs that have one.
pub open spec fn known_schemas<F>(outputs: Seq<(Option<String>, Option<F>)>) -> Seq<
    (Option<String>, F),
>
    decreases outputs.len(),
{
    if outputs.len() == 0 {
        Seq::empty()
    } else {
        let front = known_schemas(outputs.drop_last());
        match outputs.last().1 {
            Some(schema) => front.push((outputs.last().0, schema)),
            None => front,
        }
    }
}

/// Files the schema of each output of a source under its port, for those outputs that have one.
pub fn source_schemas<F>(outputs: Vec<(Option<String>, Option<F>)>) -> (schemas: KeyedMap<
    Option<String>,
    F,
>)
    ensures
        schemas@ == extended(Seq::empty(), texted(known_schemas(outputs@))),
{
    let ghost all = outputs@;
    let mut known: Vec<(Option<String>, F)> = Vec::new();
    assert(all.take(0).len() == 0);
    for output in it: outputs
        invariant
            it.seq() == all,
            known@ == known_schemas(all.take(it.index())),
    {
        proof {
            let i = it.index() as int;
            assert(all.take(i + 1).drop_last() =~= all.take(i));
            assert(all.take(i + 1).last() == output);
        }
        if let Some(schema) = output.1 {
            known.push((output.0, schema));
        }
    }
    assert(all.take(all.len() as int) =~= all);
    KeyedMap::from_entries(known)
}

/// The transforms of a layer are listed in their order.
pub proof fn law_members_in_order(layers: Seq<usize>, layer: usize)
    requires
        layers.len() <= usize::MAX,
    ensures
        forall|p: int, q: int|
            0 <= p < q < members_of(layers, layer).len() ==> #[trigger] members_of(layers, layer)[p]
                < #[trigger] members_of(layers, layer)[q],
    decreases layers.len(),
{
    if layers.len() > 0 {
        let front = layers.drop_last();
        law_members_in_order(front, layer);
        let before = members_of(front, layer);
        let all = members_of(layers, layer);
        assert forall|p: int, q: int| 0 <= p < q < all.len() implies #[trigger] all[p]
            < #[trigger] all[q] by {
            assert(before.contains(before[p]) || p >= before.len());
            law_members(front, layer, all[p]);
        }
    }
}

/// The schemas of the transform at a position were worked out, under a name.
pub open spec fn is_worked_out<F, E>(
    results: Seq<LayerResult<F, E>>,
    i: int,
    name: Seq<char>,
) -> bool {
    0 <= i < results.len() && results[i].0@ == name && results[i].1 is Ok
}

proof fn lemma_worked_out<F, E>(
    definitions: Seq<(Seq<char>, Definitions<F>)>,
    results: Seq<LayerResult<F, E>>,
    name: Seq<char>,
)
    requires
        distinct_keys(definitions),
    ensures
        distinct_keys(extended(definitions, resolved_entries(results))),
        forall|i: int|
            #[trigger] is_worked_out(results, i, name) && (forall|j: int|
                i < j < results.len() ==> !#[trigger] is_worked_out(results, j, name)) ==> lookup(
                extended(definitions, resolved_entries(results)),
                name,
            ) == Some(results[i].1->Ok_0),
        (forall|i: int| !#[trigger] is_worked_out(results, i, name)) ==> lookup(
            extended(definitions, resolved_entries(results)),
            name,
        ) == lookup(definitions, name),
    decreases results.len(),
{
    if results.len() > 0 {
        let front = results.drop_last();
        let last = results.len() - 1;
        lemma_worked_out(definitions, front, name);
        assert(results[last] == results.last());
        assert forall|i: int| i != last implies #[trigger] is_worked_out(results, i, name)
            == is_worked_out(front, i, name) by {}
        let here = is_worked_out(results, last, name);
        let so_far = extended(definitions, resolved_entries(front));
        if let Ok(own) = results.last().1 {
            let all = resolved_entries(results);
            assert(all.drop_last() =~= resolved_entries(front));
            assert(all.last() == (results.last().0@, own));
            lemma_upsert_lookup(so_far, results.last().0@, own, name);
            lemma_upsert_distinct(so_far, results.last().0@, own);
        }
        assert forall|i: int|
            #[trigger] is_worked_out(results, i, name) && (forall|j: int|
                i < j < results.len() ==> !#[trigger] is_worked_out(results, j, name))
                implies lookup(extended(definitions, resolved_entries(results)), name) == Some(
            results[i].1->Ok_0,
        ) by {
            if i < last {
                assert(is_worked_out(front, i, name));
                assert forall|j: int| i < j < front.len() implies !#[trigger] is_worked_out(
                    front,
                    j,
                    name,
                ) by {
                    assert(!is_worked_out(results, j, name));
                }
                assert(!here);
            }
        }
        if forall|i: int| !#[trigger] is_worked_out(results, i, name) {
            assert forall|i: int| !#[trigger] is_worked_out(front, i, name) by {
                assert(!is_worked_out(results, i, name));
            }
        }
    }
}

/// What follows on the results of a layer. Where one transform could not be worked out, nothing is
/// built. Else the next layer comes, or the work is done where there is none; and at hand are then
/// the schemas that were worked out, under the names of their transforms, and else those that were
/// at hand before.
pub proof fn law_layer_results<F, E>(
    index: usize,
    definitions: ComponentMap<Definitions<F>>,
    count: usize,
    results: Vec<LayerResult<F, E>>,
    next: SchemaState<F>,
    name: Seq<char>,
)
    requires
        distinct_keys(definitions@),
        call_ensures(
            resolve_layer::<F, E>,
            (SchemaState::Layer { index, definitions }, count, results),
            next,
        ),
    ensures
        next is Failed <==> exists|i: int|
            0 <= i < results@.len() && (#[trigger] results@[i]).1 is Err,
        next is Layer ==> index + 1 < count && next->Layer_index == index + 1,
        next is Resolved ==> index + 1 >= count,
        !(next is Failed) ==> {
            let after = match next {
                SchemaState::Layer { definitions: after, .. } => after@,
                SchemaState::Resolved { definitions: after } => after@,
                SchemaState::Failed => Seq::empty(),
            };
            &&& forall|i: int|
                #[trigger] is_worked_out(results@, i, name) && (forall|j: int|
                    i < j < results@.len() ==> !#[trigger] is_worked_out(results@, j, name))
                    ==> lookup(after, name) == Some(results@[i].1->Ok_0)
            &&& (forall|i: int| !#[trigger] is_worked_out(results@, i, name)) ==> lookup(
                after,
                name,
            ) == lookup(definitions@, name)
        },
{
    lemma_worked_out(definitions@, results@, name);
    assert(next@ == schema_next(
        SchemaState::Layer { index, definitions }@,
        count as nat,
        results@,
    ));
}

/// The work starts with the first layer and with no schemas, and is done at once where there is no
/// layer; and once it has failed or is done, it stays so.
pub proof fn law_schemas_start_and_end<F, E>(
    count: usize,
    start: SchemaState<F>,
    state: SchemaState<F>,
    results: Vec<LayerResult<F, E>>,
    next: SchemaState<F>,
)
    requires
        call_ensures(start_schemas::<F>, (count,), start),
        call_ensures(resolve_layer::<F, E>, (state, count, results), next),
        !(state is Layer),
    ensures
        count > 0 ==> (start matches SchemaState::Layer { index, definitions } && index == 0
            && definitions@.len() == 0),
        count == 0 ==> (start matches SchemaState::Resolved { definitions } && definitions@.len()
            == 0),
        next@ == state@,
{
}

/// A transform is handed a copy of what was worked out for it, output by output, and nothing where
/// nothing was.
pub proof fn law_definitions_are_copied<F: Clone>(
    definitions: ComponentMap<Definitions<F>>,
    key: &str,
    copy: Definitions<F>,
)
    requires
        call_ensures(input_definitions::<F>, (&definitions, key), copy),
    ensures
        match lookup(definitions@, key@) {
            Some(own) => copy@.len() == own@.len() && forall|i: int|
                0 <= i < copy@.len() ==> (#[trigger] copy@[i]).0 == own@[i].0 && cloned(
                    own@[i].1,
                    copy@[i].1,
                ),
            None => copy@.len() == 0,
        },
{
}

/// The schemas of a list are merged from the first on: of none, what allows anything; of one, it
/// stays as it is; and each further one is merged into what the others come to.
pub proof fn law_one_more_definition<F, M: Fn(F, F) -> F, A: FnOnce() -> F>(
    definitions: Seq<F>,
    definition: F,
    merge: M,
    any: A,
    merged: F,
)
    ensures
        is_merge(Seq::empty(), merge, any, merged) ==> call_ensures(any, (), merged),
        is_merge(seq![definition], merge, any, merged) ==> merged == definition,
        definitions.len() > 0 && is_merge(definitions.push(definition), merge, any, merged)
            ==> exists|before: F| #[trigger]
            is_merge(definitions, merge, any, before) && call_ensures(
                merge,
                (before, definition),
                merged,
            ),
{
    let all = definitions.push(definition);
    if definitions.len() > 0 && is_merge(all, merge, any, merged) {
        let steps = choose|steps: Seq<F>| #[trigger]
            merge_steps(all, merge, steps) && merged == steps.last();
        let front = steps.drop_last();
        assert forall|i: int| 0 < i < front.len() implies call_ensures(
            merge,
            (front[i - 1], definitions[i]),
            #[trigger] front[i],
        ) by {
            assert(steps[i] == front[i]);
        }
        assert(merge_steps(definitions, merge, front));
        assert(is_merge(definitions, merge, any, front.last()));
        assert(steps[steps.len() - 1] == merged);
    }
}

/// The output at a position has a schema, and stands behind a port.
pub open spec fn has_schema<F>(
    outputs: Seq<(Option<String>, Option<F>)>,
    i: int,
    port: Option<Seq<char>>,
) -> bool {
    0 <= i < outputs.len() && opt_text(outputs[i].0) == port && outputs[i].1 is Some
}

/// What the schemas of a list of outputs come to, filed under their ports.
pub proof fn lemma_known_schemas<F>(
    outputs: Seq<(Option<String>, Option<F>)>,
    port: Option<Seq<char>>,
)
    ensures
        ({
            let filed = extended(Seq::empty(), texted(known_schemas(outputs)));
            &&& distinct_keys(filed)
            &&& forall|i: int|
                #[trigger] has_schema(outputs, i, port) && (forall|j: int|
                    i < j < outputs.len() ==> !#[trigger] has_schema(outputs, j, port)) ==> lookup(
                    filed,
                    port,
                ) == outputs[i].1
            &&& (forall|i: int| !#[trigger] has_schema(outputs, i, port)) ==> lookup(
                filed,
                port,
            ) is None
        }),
    decreases outputs.len(),
{
    let none = Seq::<(Option<Seq<char>>, F)>::empty();
    assert(texted(Seq::<(Option<String>, F)>::empty()) =~= none);
    if outputs.len() > 0 {
        let front = outputs.drop_last();
        let last = outputs.len() - 1;
        lemma_known_schemas(front, port);
        assert(outputs[last] == outputs.last());
        assert forall|i: int| i != last implies #[trigger] has_schema(outputs, i, port)
            == has_schema(front, i, port) by {}
        let here = has_schema(outputs, last, port);
        let so_far = extended(none, texted(known_schemas(front)));
        let filed = extended(none, texted(known_schemas(outputs)));
        if let Some(schema) = outputs.last().1 {
            let own = opt_text(outputs.last().0);
            let all = texted(known_schemas(outputs));
            assert(all.drop_last() =~= texted(known_schemas(front)));
            assert(all.last() == (own, schema));
            lemma_upsert_lookup(so_far, own, schema, port);
            lemma_upsert_distinct(so_far, own, schema);
        }
        assert forall|i: int|
            #[trigger] has_schema(outputs, i, port) && (forall|j: int|
                i < j < outputs.len() ==> !#[trigger] has_schema(outputs, j, port)) implies lookup(
            filed,
            port,
        ) == outputs[i].1 by {
            if i < last {
                assert(has_schema(front, i, port));
                assert forall|j: int| i < j < front.len() implies !#[trigger] has_schema(
                    front,
                    j,
                    port,
                ) by {
                    assert(!has_schema(outputs, j, port));
                }
                assert(!here);
            }
        }
        if forall|i: int| !#[trigger] has_schema(outputs, i, port) {
            assert forall|i: int| !#[trigger] has_schema(front, i, port) by {
                assert(!has_schema(outputs, i, port));
            }
        }
    }
}

/// The schemas of a source are filed under the ports of their outputs: of outputs behind one port,
/// that of the last that has one; and a port behind which no output has one is not filed.
pub proof fn law_source_schemas<F>(
    outputs: Vec<(Option<String>, Option<F>)>,
    schemas: KeyedMap<Option<String>, F>,
    port: Option<Seq<char>>,
)
    requires
        call_ensures(source_schemas::<F>, (outputs,), schemas),
    ensures
        forall|i: int|
            #[trigger] has_schema(outputs@, i, port) && (forall|j: int|
                i < j < outputs@.len() ==> !#[trigger] has_schema(outputs@, j, port)) ==> lookup(
                schemas@,
                port,
            ) == outputs@[i].1,
        (forall|i: int| !#[trigger] has_schema(outputs@, i, port)) ==> lookup(
            schemas@,
            port,
        ) is None,
{
    lemma_known_schemas(outputs@, port);
}

/// The outputs of a transform are worked out ahead exactly where nobody has done so and its schemas
/// are at hand, and then from these.
pub proof fn law_precomputed<F>(
    definitions: ComponentMap<Definitions<F>>,
    cached: bool,
    key: &str,
    from: Option<&Definitions<F>>,
)
    requires
        call_ensures(outputs_to_precompute::<F>, (&definitions, cached, key), from),
    ensures
        from is None <==> cached || !has_key(definitions@, key@),
        from matches Some(own) ==> lookup(definitions@, key@) == Some(*own),
{
}

} // verus!

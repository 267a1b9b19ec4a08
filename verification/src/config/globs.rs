//! Patterns in the inputs of transforms and sinks.

use indexmap::IndexSet;
use vstd::prelude::*;

use crate::config::{
    output_name, viewed, ConfigBuilder, ConfigBuilderView, Domain, OutputId, OutputIdView,
    SinkOuter, SinkView, TransformOuter, TransformView,
};
use crate::ordered::{
    index_set_insert, index_set_item_at, index_set_items, index_set_len,
    index_set_new, keys_of, lemma_rekeyed, pairs, set_extended, ComponentMap,
};
use crate::text::{clone_opt_text, contains_char, opt_text, texts};

verus! {

// ---------------------------------------------------------------------------------------------
// Patterns.
// ---------------------------------------------------------------------------------------------

/// Whether `glob::Pattern::new` accepts a text. The characters that it takes for separators of
/// paths are those of the target that the crate is built for.
pub uninterp spec fn glob_is_valid(pattern: Seq<char>) -> bool;

/// Whether the `glob::Pattern` of a text that it accepts matches a name. The characters that it
/// takes for separators of paths are those of the target that the crate is built for.
pub uninterp spec fn glob_matches(pattern: Seq<char>, name: Seq<char>) -> bool;

/// `glob::Pattern::new`: whether the text is accepted depends on the text alone.
#[verifier::external_body]
fn pattern_is_valid(pattern: &str) -> (valid: bool)
    ensures
        valid == glob_is_valid(pattern@),
{
    glob::Pattern::new(pattern).is_ok()
}

/// `glob::Pattern::matches`, on the pattern that `glob::Pattern::new` makes of a text: whether the
/// name matches depends on the two texts alone, and a text that is not accepted matches nothing.
#[verifier::external_body]
fn pattern_matches(pattern: &str, name: &str) -> (matched: bool)
    ensures
        matched == (glob_is_valid(pattern@) && glob_matches(pattern@, name@)),
{
    glob::Pattern::new(pattern).is_ok_and(|compiled| compiled.matches(name))
}

/// A text holds one of the characters that make it a pattern.
pub open spec fn has_glob_chars(s: Seq<char>) -> bool {
    s.contains('*') || s.contains('?') || s.contains('[')
}

/// Returns true if the string contains glob metacharacters (*, ?, [).
pub fn is_glob_pattern(s: &str) -> (yes: bool)
    ensures
        yes == has_glob_chars(s@),
{
    contains_char(s, '*') || contains_char(s, '?') || contains_char(s, '[')
}

/// What an input that looks like a pattern is compared with the candidates by.
pub enum InputMatcher {
    /// A text that is a pattern.
    Pattern(String),
    /// A text that is no valid pattern, and stands for itself.
    String(String),
}

/// What a matcher matches.
pub open spec fn matcher_accepts(matcher: InputMatcher, candidate: Seq<char>) -> bool {
    match matcher {
        InputMatcher::Pattern(pattern) => glob_is_valid(pattern@) && glob_matches(
            pattern@,
            candidate,
        ),
        InputMatcher::String(s) => s@ == candidate,
    }
}

impl InputMatcher {
    /// The matcher of an input: its pattern where it is a valid one, else its own text.
    pub fn new(raw_input: &String) -> (matcher: InputMatcher)
        ensures
            match matcher {
                InputMatcher::Pattern(pattern) => glob_is_valid(raw_input@) && pattern@
                    == raw_input@,
                InputMatcher::String(s) => !glob_is_valid(raw_input@) && s@ == raw_input@,
            },
    {
        if pattern_is_valid(raw_input.as_str()) {
            InputMatcher::Pattern(raw_input.clone())
        } else {
            InputMatcher::String(raw_input.clone())
        }
    }

    /// Tells whether the matcher matches a candidate.
    pub fn matches(&self, candidate: &String) -> (matched: bool)
        ensures
            matched == matcher_accepts(*self, candidate@),
    {
        match self {
            InputMatcher::Pattern(pattern) => {
                pattern_matches(pattern.as_str(), candidate.as_str())
            },
            InputMatcher::String(s) => *s == *candidate,
        }
    }
}

// ---------------------------------------------------------------------------------------------
// The inputs of one component.
// ---------------------------------------------------------------------------------------------

/// Whether an input that looks like a pattern picks a candidate.
pub open spec fn input_picks(raw: Seq<char>, candidate: Seq<char>) -> bool {
    if glob_is_valid(raw) {
        glob_matches(raw, candidate)
    } else {
        raw == candidate
    }
}

/// Whether an input that looks like a pattern picks a candidate for a component other than the
/// candidate itself.
pub open spec fn picks_for(raw: Seq<char>, id: Seq<char>) -> spec_fn(Seq<char>) -> bool {
    |c: Seq<char>| input_picks(raw, c) && c != id
}

/// The candidates that an input picks for a component: all that match, but the component itself.
pub open spec fn picked(raw: Seq<char>, id: Seq<char>, candidates: Seq<Seq<char>>) -> Seq<
    Seq<char>,
> {
    candidates.filter(picks_for(raw, id))
}

/// What stands for one input: itself where it is no pattern or picks nothing, else what it picks.
pub open spec fn expanded_input(
    raw: Seq<char>,
    id: Seq<char>,
    candidates: Seq<Seq<char>>,
) -> Seq<Seq<char>> {
    if has_glob_chars(raw) && picked(raw, id, candidates).len() > 0 {
        picked(raw, id, candidates)
    } else {
        seq![raw]
    }
}

/// What stands for a list of inputs, one after the other.
pub open spec fn expanded_inputs(
    inputs: Seq<Seq<char>>,
    id: Seq<char>,
    candidates: Seq<Seq<char>>,
) -> Seq<Seq<char>>
    decreases inputs.len(),
{
    if inputs.len() == 0 {
        Seq::empty()
    } else {
        expanded_inputs(inputs.drop_last(), id, candidates) + expanded_input(
            inputs.last(),
            id,
            candidates,
        )
    }
}

/// Appends to a list the candidates that an input picks, and tells whether there was one.
fn extend_picked(
    inputs: &mut Vec<String>,
    raw_input: &String,
    id: &String,
    candidates: &IndexSet<String>,
) -> (matched: bool)
    ensures
        texts(final(inputs)@) == texts(old(inputs)@) + picked(
            raw_input@,
            id@,
            index_set_items(*candidates),
        ),
        matched == (picked(raw_input@, id@, index_set_items(*candidates)).len() > 0),
{
    let matcher = InputMatcher::new(raw_input);
    let ghost items = index_set_items(*candidates);
    let ghost wanted = picks_for(raw_input@, id@);
    let mut matched: bool = false;
    let mut i: usize = 0;
    let len: usize = index_set_len(candidates);
    let ghost before = texts(inputs@);
    proof {
        reveal(Seq::filter);
        assert(items.take(0) =~= Seq::<Seq<char>>::empty());
        assert(before + items.take(0).filter(wanted) =~= before);
    }
    while i < len
        invariant
            i <= len,
            len == items.len(),
            items == index_set_items(*candidates),
            wanted == picks_for(raw_input@, id@),
            match matcher {
                InputMatcher::Pattern(pattern) => glob_is_valid(raw_input@) && pattern@
                    == raw_input@,
                InputMatcher::String(s) => !glob_is_valid(raw_input@) && s@ == raw_input@,
            },
            texts(inputs@) == before + items.take(i as int).filter(wanted),
            matched == (items.take(i as int).filter(wanted).len() > 0),
        decreases len - i,
    {
        let input = index_set_item_at(candidates, i).unwrap();
        proof {
            reveal(Seq::filter);
            assert(items.take(i + 1).drop_last() =~= items.take(i as int));
            assert(items.take(i + 1).last() == items[i as int]);
        }
        let ghost so_far = inputs@;
        if matcher.matches(input) && *input != *id {
            matched = true;
            inputs.push(input.clone());
            assert(texts(inputs@) =~= texts(so_far).push(input@));
            assert(texts(inputs@) =~= before + items.take(i + 1).filter(wanted));
        }
        i += 1;
    }
    assert(items.take(items.len() as int) =~= items);
    matched
}

/// Expands the patterns in a list of inputs. An input that picks nothing stays as it is, so that
/// what is said of it later names what was written.
///
/// No pattern makes a component its own input; every input was written down or is a candidate;
/// inputs that are no patterns stay; and the list never becomes shorter.
pub fn expand_globs_inner(inputs: &mut Vec<String>, id: &String, candidates: &IndexSet<String>)
    ensures
        texts(final(inputs)@) == expanded_inputs(
            texts(old(inputs)@),
            id@,
            index_set_items(*candidates),
        ),
        texts(final(inputs)@).contains(id@) ==> texts(old(inputs)@).contains(id@),
        forall|name: Seq<char>| #[trigger]
            texts(final(inputs)@).contains(name) ==> texts(old(inputs)@).contains(name)
                || index_set_items(*candidates).contains(name),
        forall|name: Seq<char>|
            texts(old(inputs)@).contains(name) && !has_glob_chars(name) ==> #[trigger] texts(
                final(inputs)@,
            ).contains(name),
        final(inputs)@.len() >= old(inputs)@.len(),
{
    let mut raw_inputs: Vec<String> = Vec::new();
    std::mem::swap(inputs, &mut raw_inputs);
    let ghost raw = raw_inputs@;
    let ghost items = index_set_items(*candidates);
    assert(texts(raw).take(0) =~= Seq::<Seq<char>>::empty());
    assert(texts(inputs@) =~= Seq::<Seq<char>>::empty());
    for raw_input in it: raw_inputs
        invariant
            it.seq() == raw,
            items == index_set_items(*candidates),
            texts(inputs@) == expanded_inputs(texts(raw).take(it.index()), id@, items),
    {
        proof {
            let i = it.index() as int;
            assert(texts(raw).take(i + 1).drop_last() =~= texts(raw).take(i));
            assert(texts(raw).take(i + 1).last() == raw_input@);
        }
        let ghost so_far = texts(inputs@);
        let matched: bool = if is_glob_pattern(raw_input.as_str()) {
            extend_picked(inputs, &raw_input, id, candidates)
        } else {
            false
        };
        if !matched {
            assert(texts(inputs@) =~= so_far);
            let ghost listed = inputs@;
            inputs.push(raw_input);
            assert(texts(inputs@) =~= texts(listed).push(raw_input@));
            assert(texts(inputs@) =~= so_far + seq![raw_input@]);
        }
    }
    proof {
        assert(texts(raw).take(texts(raw).len() as int) =~= texts(raw));
        law_expansion_adds_no_self_input(texts(raw), id@, items);
        assert forall|name: Seq<char>| #[trigger]
            texts(inputs@).contains(name) implies texts(raw).contains(name) || items.contains(
            name,
        ) by {
            law_expansion_origin(texts(raw), id@, items, name);
        }
        assert forall|name: Seq<char>|
            texts(raw).contains(name) && !has_glob_chars(name) implies #[trigger] texts(
            inputs@,
        ).contains(name) by {
            let i = texts(raw).index_of(name);
            assert(expanded_input(texts(raw)[i], id@, items)[0] == name);
            law_no_input_is_lost(texts(raw), id@, items, i, name);
        }
        law_expansion_never_shortens(texts(raw), id@, items);
    }
}

// ---------------------------------------------------------------------------------------------
// The inputs of all components.
// ---------------------------------------------------------------------------------------------

/// The kinds of transforms that can have named ports.
pub open spec fn is_multi_output(component_name: Seq<char>) -> bool {
    component_name == "route"@ || component_name == "exclusive_route"@ || component_name
        == "remap"@
}

/// Tells whether a kind of transform can have named ports.
fn is_multi_output_type(component_name: &String) -> (yes: bool)
    ensures
        yes == is_multi_output(component_name@),
{
    *component_name == "route".to_string() || *component_name == "exclusive_route".to_string()
        || *component_name == "remap".to_string()
}

/// A pattern with a dot: only where there is such a pattern do ports become candidates.
pub open spec fn is_dotted_glob(s: Seq<char>) -> bool {
    has_glob_chars(s) && s.contains('.')
}

/// Some input of the list is a pattern with a dot.
pub open spec fn has_dotted_glob(inputs: Seq<Seq<char>>) -> bool {
    exists|i: int| 0 <= i < inputs.len() && #[trigger] is_dotted_glob(inputs[i])
}

/// Some transform or sink has an input that is a pattern with a dot.
pub open spec fn needs_port_candidates<D: Domain>(config: ConfigBuilderView<D>) -> bool {
    ||| exists|i: int|
        0 <= i < config.transforms.len() && #[trigger] has_dotted_glob(
            config.transforms[i].1.inputs,
        )
    ||| exists|i: int|
        0 <= i < config.sinks.len() && #[trigger] has_dotted_glob(config.sinks[i].1.inputs)
}

/// The names of the outputs of a component that stand behind a port.
pub open spec fn port_names(key: Seq<char>, ports: Seq<Option<Seq<char>>>) -> Seq<Seq<char>>
    decreases ports.len(),
{
    if ports.len() == 0 {
        Seq::empty()
    } else {
        let front = port_names(key, ports.drop_last());
        match ports.last() {
            Some(_) => front.push(
                output_name(OutputIdView { component: key, port: ports.last() }),
            ),
            None => front,
        }
    }
}

/// The names of the port outputs of all transforms that can have such ports.
pub open spec fn all_port_names<D: Domain>(
    transforms: Seq<(Seq<char>, TransformView<Seq<char>, D>)>,
) -> Seq<Seq<char>>
    decreases transforms.len(),
{
    if transforms.len() == 0 {
        Seq::empty()
    } else {
        let front = all_port_names(transforms.drop_last());
        if is_multi_output(transforms.last().1.component_name) {
            front + port_names(transforms.last().0, transforms.last().1.ports)
        } else {
            front
        }
    }
}

/// What the patterns of a configuration are matched against: the sources, then the transforms,
/// and then, where a pattern could match one, the ports of transforms. No name comes twice.
pub open spec fn glob_candidates<D: Domain>(config: ConfigBuilderView<D>) -> Seq<Seq<char>> {
    let named = set_extended(
        set_extended(Seq::empty(), keys_of(config.sources)),
        keys_of(config.transforms),
    );
    if needs_port_candidates(config) {
        set_extended(named, all_port_names(config.transforms))
    } else {
        named
    }
}

/// A configuration in which the inputs of each transform and each sink are expanded.
pub open spec fn expanded_config<D: Domain>(config: ConfigBuilderView<D>) -> ConfigBuilderView<D> {
    let candidates = glob_candidates(config);
    ConfigBuilderView {
        transforms: config.transforms.map_values(
            |e: (Seq<char>, TransformView<Seq<char>, D>)|
                (
                    e.0,
                    TransformView {
                        inputs: expanded_inputs(e.1.inputs, e.0, candidates),
                        ..e.1
                    },
                ),
        ),
        sinks: config.sinks.map_values(
            |e: (Seq<char>, SinkView<Seq<char>, D>)|
                (e.0, SinkView { inputs: expanded_inputs(e.1.inputs, e.0, candidates), ..e.1 }),
        ),
        ..config
    }
}

/// Tells whether some input is a pattern with a dot.
fn any_dotted_glob(inputs: &Vec<String>) -> (any: bool)
    ensures
        any == has_dotted_glob(texts(inputs@)),
{
    let mut i: usize = 0;
    while i < inputs.len()
        invariant
            i <= inputs.len(),
            forall|j: int| 0 <= j < i ==> !#[trigger] is_dotted_glob(texts(inputs@)[j]),
        decreases inputs.len() - i,
    {
        let input = &inputs[i];
        if is_glob_pattern(input.as_str()) && contains_char(input.as_str(), '.') {
            assert(is_dotted_glob(texts(inputs@)[i as int]));
            return true;
        }
        i += 1;
    }
    false
}

/// Tells whether the names of ports have to be among the candidates.
fn wants_port_candidates<D: Domain>(config: &ConfigBuilder<D>) -> (wanted: bool)
    ensures
        wanted == needs_port_candidates(config@),
{
    let mut i: usize = 0;
    while i < config.transforms.len()
        invariant
            i <= config.transforms@.len(),
            forall|j: int|
                0 <= j < i ==> !#[trigger] has_dotted_glob(config@.transforms[j].1.inputs),
        decreases config.transforms@.len() - i,
    {
        let transform = config.transforms.value_at(i);
        assert(config@.transforms[i as int].1.inputs =~= texts(transform.inputs@));
        if any_dotted_glob(&transform.inputs) {
            return true;
        }
        i += 1;
    }
    let mut k: usize = 0;
    while k < config.sinks.len()
        invariant
            k <= config.sinks@.len(),
            forall|j: int| 0 <= j < k ==> !#[trigger] has_dotted_glob(config@.sinks[j].1.inputs),
        decreases config.sinks@.len() - k,
    {
        let sink = config.sinks.value_at(k);
        assert(config@.sinks[k as int].1.inputs =~= texts(sink.inputs@));
        if any_dotted_glob(&sink.inputs) {
            return true;
        }
        k += 1;
    }
    false
}

/// Adds the keys of a map to a set.
fn insert_keys<V>(set: &mut IndexSet<String>, map: &ComponentMap<V>)
    ensures
        index_set_items(*final(set)) == set_extended(index_set_items(*old(set)), keys_of(map@)),
{
    let ghost before = index_set_items(*set);
    let ghost keys = keys_of(map@);
    assert(keys.take(0).len() == 0);
    let mut i: usize = 0;
    while i < map.len()
        invariant
            i <= map@.len(),
            keys == keys_of(map@),
            index_set_items(*set) == set_extended(before, keys.take(i as int)),
        decreases map@.len() - i,
    {
        proof {
            assert(keys.take(i + 1).drop_last() =~= keys.take(i as int));
            assert(keys.take(i + 1).last() == map@[i as int].0);
        }
        index_set_insert(set, map.key_at(i).clone());
        i += 1;
    }
    assert(keys.take(keys.len() as int) =~= keys);
}

/// Appends the names of the port outputs of one component.
fn push_port_names(names: &mut Vec<String>, key: &String, ports: &Vec<Option<String>>)
    ensures
        texts(final(names)@) == texts(old(names)@) + port_names(
            key@,
            crate::config::port_texts(ports@),
        ),
{
    let ghost before = texts(names@);
    let ghost all = crate::config::port_texts(ports@);
    assert(all.take(0).len() == 0);
    assert(before + port_names(key@, all.take(0)) =~= before);
    let mut i: usize = 0;
    while i < ports.len()
        invariant
            i <= ports.len(),
            all == crate::config::port_texts(ports@),
            texts(names@) == before + port_names(key@, all.take(i as int)),
        decreases ports.len() - i,
    {
        proof {
            assert(all.take(i + 1).drop_last() =~= all.take(i as int));
            assert(all.take(i + 1).last() == opt_text(ports@[i as int]));
        }
        if ports[i].is_some() {
            let id = OutputId { component: key.clone(), port: clone_opt_text(&ports[i]) };
            let ghost so_far = names@;
            names.push(id.to_string());
            assert(texts(names@) =~= texts(so_far).push(output_name(id@)));
            assert(texts(names@) =~= before + port_names(key@, all.take(i + 1)));
        }
        i += 1;
    }
    assert(all.take(all.len() as int) =~= all);
}

/// The names of the port outputs of all transforms that can have such ports.
fn transform_port_names<D: Domain>(transforms: &ComponentMap<TransformOuter<String, D>>) -> (names:
    Vec<String>)
    ensures
        texts(names@) == all_port_names(viewed(transforms@)),
{
    let ghost all = viewed(transforms@);
    let mut names: Vec<String> = Vec::new();
    assert(all.take(0).len() == 0);
    assert(texts(names@) =~= all_port_names(all.take(0)));
    let mut i: usize = 0;
    while i < transforms.len()
        invariant
            i <= transforms@.len(),
            all == viewed(transforms@),
            texts(names@) == all_port_names(all.take(i as int)),
        decreases transforms@.len() - i,
    {
        let transform = transforms.value_at(i);
        proof {
            assert(all.take(i + 1).drop_last() =~= all.take(i as int));
            assert(all.take(i + 1).last() == (transforms@[i as int].0, transform@));
        }
        if is_multi_output_type(&transform.component_name) {
            push_port_names(&mut names, transforms.key_at(i), &transform.ports);
        }
        i += 1;
    }
    assert(all.take(all.len() as int) =~= all);
    names
}

/// The names that patterns are matched against.
fn collect_candidates<D: Domain>(config: &ConfigBuilder<D>) -> (candidates: IndexSet<String>)
    ensures
        index_set_items(candidates) == glob_candidates(config@),
{
    let mut candidates = index_set_new();
    insert_keys(&mut candidates, &config.sources);
    insert_keys(&mut candidates, &config.transforms);
    proof {
        assert(keys_of(config@.transforms) =~= keys_of(config.transforms@));
    }
    if wants_port_candidates(config) {
        let names = transform_port_names(&config.transforms);
        let ghost before = index_set_items(candidates);
        let ghost list = names@;
        let ghost all = texts(list);
        assert(all.take(0).len() == 0);
        for name in it: names
            invariant
                it.seq() == list,
                all == texts(list),
                index_set_items(candidates) == set_extended(before, all.take(it.index())),
        {
            proof {
                let i = it.index() as int;
                assert(all.take(i + 1).drop_last() =~= all.take(i));
                assert(all.take(i + 1).last() == name@);
            }
            index_set_insert(&mut candidates, name);
        }
        assert(all.take(all.len() as int) =~= all);
    }
    candidates
}

/// Expands the inputs of each transform.
fn expand_transforms<D: Domain>(
    transforms: ComponentMap<TransformOuter<String, D>>,
    candidates: &IndexSet<String>,
) -> (expanded: ComponentMap<TransformOuter<String, D>>)
    ensures
        viewed(expanded@) == viewed(transforms@).map_values(
            |e: (Seq<char>, TransformView<Seq<char>, D>)|
                (
                    e.0,
                    TransformView {
                        inputs: expanded_inputs(e.1.inputs, e.0, index_set_items(*candidates)),
                        ..e.1
                    },
                ),
        ),
{
    let ghost items = index_set_items(*candidates);
    let ghost all = transforms@;
    let mut done: Vec<(String, TransformOuter<String, D>)> = Vec::new();
    let entries = transforms.into_entries();
    let ghost list = entries@;
    for entry in it: entries
        invariant
            it.seq() == list,
            pairs(list) == all,
            items == index_set_items(*candidates),
            done@.len() == it.index(),
            forall|j: int|
                0 <= j < done@.len() ==> (#[trigger] done@[j]).0@ == all[j].0 && done@[j].1@ == (
                TransformView {
                    inputs: expanded_inputs(all[j].1@.inputs, all[j].0, items),
                    ..all[j].1@
                }),
    {
        let (id, mut transform) = entry;
        proof {
            let i = it.index() as int;
            assert(pairs(list)[i] == (list[i].0@, list[i].1));
            assert(texts(transform.inputs@) =~= transform@.inputs);
        }
        expand_globs_inner(&mut transform.inputs, &id, candidates);
        assert(texts(transform.inputs@) =~= transform@.inputs);
        done.push((id, transform));
    }
    proof {
        assert(pairs(list).len() == list.len());
        lemma_rekeyed(all, done@);
    }
    let expanded = ComponentMap::from_entries(done);
    assert(viewed(expanded@) =~= viewed(transforms@).map_values(
        |e: (Seq<char>, TransformView<Seq<char>, D>)|
            (e.0, TransformView { inputs: expanded_inputs(e.1.inputs, e.0, items), ..e.1 }),
    ));
    expanded
}

/// Expands the inputs of each sink.
fn expand_sinks<D: Domain>(
    sinks: ComponentMap<SinkOuter<String, D>>,
    candidates: &IndexSet<String>,
) -> (expanded: ComponentMap<SinkOuter<String, D>>)
    ensures
        viewed(expanded@) == viewed(sinks@).map_values(
            |e: (Seq<char>, SinkView<Seq<char>, D>)|
                (
                    e.0,
                    SinkView {
                        inputs: expanded_inputs(e.1.inputs, e.0, index_set_items(*candidates)),
                        ..e.1
                    },
                ),
        ),
{
    let ghost items = index_set_items(*candidates);
    let ghost all = sinks@;
    let mut done: Vec<(String, SinkOuter<String, D>)> = Vec::new();
    let entries = sinks.into_entries();
    let ghost list = entries@;
    for entry in it: entries
        invariant
            it.seq() == list,
            pairs(list) == all,
            items == index_set_items(*candidates),
            done@.len() == it.index(),
            forall|j: int|
                0 <= j < done@.len() ==> (#[trigger] done@[j]).0@ == all[j].0 && done@[j].1@ == (
                SinkView {
                    inputs: expanded_inputs(all[j].1@.inputs, all[j].0, items),
                    ..all[j].1@
                }),
    {
        let (id, mut sink) = entry;
        proof {
            let i = it.index() as int;
            assert(pairs(list)[i] == (list[i].0@, list[i].1));
            assert(texts(sink.inputs@) =~= sink@.inputs);
        }
        expand_globs_inner(&mut sink.inputs, &id, candidates);
        assert(texts(sink.inputs@) =~= sink@.inputs);
        done.push((id, sink));
    }
    proof {
        assert(pairs(list).len() == list.len());
        lemma_rekeyed(all, done@);
    }
    let expanded = ComponentMap::from_entries(done);
    assert(viewed(expanded@) =~= viewed(sinks@).map_values(
        |e: (Seq<char>, SinkView<Seq<char>, D>)|
            (e.0, SinkView { inputs: expanded_inputs(e.1.inputs, e.0, items), ..e.1 }),
    ));
    expanded
}

/// Expands globs in the input lists of all transforms and sinks.
pub fn expand_globs<D: Domain>(config: &mut ConfigBuilder<D>)
    ensures
        final(config)@ == expanded_config(old(config)@),
{
    let candidates = collect_candidates(config);
    let mut transforms: ComponentMap<TransformOuter<String, D>> = ComponentMap::new();
    std::mem::swap(&mut transforms, &mut config.transforms);
    config.transforms = expand_transforms(transforms, &candidates);
    let mut sinks: ComponentMap<SinkOuter<String, D>> = ComponentMap::new();
    std::mem::swap(&mut sinks, &mut config.sinks);
    config.sinks = expand_sinks(sinks, &candidates);
}

// ---------------------------------------------------------------------------------------------
// Inputs that look like patterns and are none.
// ---------------------------------------------------------------------------------------------

/// An input looks like a pattern, but is no valid one.
pub open spec fn is_invalid_pattern(raw: Seq<char>) -> bool {
    has_glob_chars(raw) && !glob_is_valid(raw)
}

/// The inputs of a component that look like patterns and are no valid ones, in order, each with the
/// name of the component.
pub open spec fn invalid_inputs(id: Seq<char>, inputs: Seq<Seq<char>>) -> Seq<
    (Seq<char>, Seq<char>),
>
    decreases inputs.len(),
{
    if inputs.len() == 0 {
        Seq::empty()
    } else {
        let front = invalid_inputs(id, inputs.drop_last());
        if is_invalid_pattern(inputs.last()) {
            front.push((id, inputs.last()))
        } else {
            front
        }
    }
}

/// The same of a list of components, one after the other.
pub open spec fn all_invalid_inputs(components: Seq<(Seq<char>, Seq<Seq<char>>)>) -> Seq<
    (Seq<char>, Seq<char>),
>
    decreases components.len(),
{
    if components.len() == 0 {
        Seq::empty()
    } else {
        all_invalid_inputs(components.drop_last()) + invalid_inputs(
            components.last().0,
            components.last().1,
        )
    }
}

/// The inputs of a configuration that look like patterns and are no valid ones: those of the
/// transforms, and then those of the sinks.
pub open spec fn invalid_patterns_of<D: Domain>(config: ConfigBuilderView<D>) -> Seq<
    (Seq<char>, Seq<char>),
> {
    all_invalid_inputs(
        config.transforms.map_values(
            |e: (Seq<char>, TransformView<Seq<char>, D>)| (e.0, e.1.inputs),
        ),
    ) + all_invalid_inputs(
        config.sinks.map_values(|e: (Seq<char>, SinkView<Seq<char>, D>)| (e.0, e.1.inputs)),
    )
}

/// The texts of a list of pairs.
pub open spec fn text_pairs(list: Seq<(String, String)>) -> Seq<(Seq<char>, Seq<char>)> {
    list.map_values(|e: (String, String)| (e.0@, e.1@))
}

/// Appends the inputs of a component that look like patterns and are no valid ones.
fn push_invalid_inputs(list: &mut Vec<(String, String)>, id: &String, inputs: &Vec<String>)
    ensures
        text_pairs(final(list)@) == text_pairs(old(list)@) + invalid_inputs(
            id@,
            texts(inputs@),
        ),
{
    let ghost before = text_pairs(list@);
    let ghost all = texts(inputs@);
    assert(all.take(0).len() == 0);
    assert(before + invalid_inputs(id@, all.take(0)) =~= before);
    let mut i: usize = 0;
    while i < inputs.len()
        invariant
            i <= inputs@.len(),
            all == texts(inputs@),
            text_pairs(list@) == before + invalid_inputs(id@, all.take(i as int)),
        decreases inputs@.len() - i,
    {
        let raw = inputs[i].as_str();
        proof {
            assert(all.take(i + 1).drop_last() =~= all.take(i as int));
            assert(all.take(i + 1).last() == raw@);
        }
        if is_glob_pattern(raw) && !pattern_is_valid(raw) {
            let ghost so_far = list@;
            list.push((id.clone(), inputs[i].clone()));
            assert(text_pairs(list@) =~= text_pairs(so_far).push((id@, raw@)));
            assert(text_pairs(list@) =~= before + invalid_inputs(id@, all.take(i + 1)));
        }
        i += 1;
    }
    assert(all.take(all.len() as int) =~= all);
}

/// Lists the inputs that look like patterns and are no valid ones, each behind the name of its
/// component: such an input stands for its own text, and is to be warned of.
pub fn invalid_patterns<D: Domain>(config: &ConfigBuilder<D>) -> (list: Vec<(String, String)>)
    ensures
        text_pairs(list@) == invalid_patterns_of(config@),
{
    let ghost transforms = config@.transforms.map_values(
        |e: (Seq<char>, TransformView<Seq<char>, D>)| (e.0, e.1.inputs),
    );
    let ghost sinks = config@.sinks.map_values(
        |e: (Seq<char>, SinkView<Seq<char>, D>)| (e.0, e.1.inputs),
    );
    let mut list: Vec<(String, String)> = Vec::new();
    assert(transforms.take(0).len() == 0);
    assert(text_pairs(list@) =~= Seq::<(Seq<char>, Seq<char>)>::empty());
    let mut i: usize = 0;
    while i < config.transforms.len()
        invariant
            i <= config.transforms@.len(),
            transforms == config@.transforms.map_values(
                |e: (Seq<char>, TransformView<Seq<char>, D>)| (e.0, e.1.inputs),
            ),
            text_pairs(list@) == all_invalid_inputs(transforms.take(i as int)),
        decreases config.transforms@.len() - i,
    {
        let transform = config.transforms.value_at(i);
        proof {
            assert(transforms.take(i + 1).drop_last() =~= transforms.take(i as int));
            assert(transform@.inputs =~= texts(transform.inputs@));
            assert(transforms.take(i + 1).last() == (
                config.transforms@[i as int].0,
                texts(transform.inputs@),
            ));
        }
        push_invalid_inputs(&mut list, config.transforms.key_at(i), &transform.inputs);
        i += 1;
    }
    assert(transforms.take(transforms.len() as int) =~= transforms);
    let ghost first = text_pairs(list@);
    assert(sinks.take(0).len() == 0);
    assert(first + all_invalid_inputs(sinks.take(0)) =~= first);
    let mut k: usize = 0;
    while k < config.sinks.len()
        invariant
            k <= config.sinks@.len(),
            sinks == config@.sinks.map_values(
                |e: (Seq<char>, SinkView<Seq<char>, D>)| (e.0, e.1.inputs),
            ),
            text_pairs(list@) == first + all_invalid_inputs(sinks.take(k as int)),
        decreases config.sinks@.len() - k,
    {
        let sink = config.sinks.value_at(k);
        let ghost so_far = text_pairs(list@);
        proof {
            assert(sinks.take(k + 1).drop_last() =~= sinks.take(k as int));
            assert(sink@.inputs =~= texts(sink.inputs@));
            assert(sinks.take(k + 1).last() == (
                config.sinks@[k as int].0,
                texts(sink.inputs@),
            ));
        }
        push_invalid_inputs(&mut list, config.sinks.key_at(k), &sink.inputs);
        assert(text_pairs(list@) =~= first + all_invalid_inputs(sinks.take(k + 1)));
        k += 1;
    }
    assert(sinks.take(sinks.len() as int) =~= sinks);
    list
}

// ---------------------------------------------------------------------------------------------
// Laws.
// ---------------------------------------------------------------------------------------------

/// An input is listed exactly where a transform or a sink has it and it looks like a pattern
/// without being a valid one.
pub proof fn law_invalid_patterns<D: Domain>(
    config: ConfigBuilderView<D>,
    id: Seq<char>,
    raw: Seq<char>,
)
    ensures
        invalid_patterns_of(config).contains((id, raw)) <==> is_invalid_pattern(raw) && ((exists|
            i: int,
        |
            0 <= i < config.transforms.len() && (#[trigger] config.transforms[i]).0 == id
                && config.transforms[i].1.inputs.contains(raw)) || (exists|i: int|
            0 <= i < config.sinks.len() && (#[trigger] config.sinks[i]).0 == id
                && config.sinks[i].1.inputs.contains(raw))),
{
    let transforms = config.transforms.map_values(
        |e: (Seq<char>, TransformView<Seq<char>, D>)| (e.0, e.1.inputs),
    );
    let sinks = config.sinks.map_values(
        |e: (Seq<char>, SinkView<Seq<char>, D>)| (e.0, e.1.inputs),
    );
    lemma_all_invalid(transforms, id, raw);
    lemma_all_invalid(sinks, id, raw);
    lemma_either_contains(all_invalid_inputs(transforms), all_invalid_inputs(sinks), (id, raw));
    assert forall|i: int| 0 <= i < transforms.len() implies #[trigger] transforms[i] == (
        config.transforms[i].0,
        config.transforms[i].1.inputs,
    ) by {}
    assert forall|i: int| 0 <= i < sinks.len() implies #[trigger] sinks[i] == (
        config.sinks[i].0,
        config.sinks[i].1.inputs,
    ) by {}
    if reads(transforms, id, raw) {
        let i = choose|i: int|
            0 <= i < transforms.len() && (#[trigger] transforms[i]).0 == id
                && transforms[i].1.contains(raw);
        assert(config.transforms[i].0 == id);
    }
    if reads(sinks, id, raw) {
        let i = choose|i: int|
            0 <= i < sinks.len() && (#[trigger] sinks[i]).0 == id && sinks[i].1.contains(raw);
        assert(config.sinks[i].0 == id);
    }
    if exists|i: int|
        0 <= i < config.transforms.len() && (#[trigger] config.transforms[i]).0 == id
            && config.transforms[i].1.inputs.contains(raw) {
        let i = choose|i: int|
            0 <= i < config.transforms.len() && (#[trigger] config.transforms[i]).0 == id
                && config.transforms[i].1.inputs.contains(raw);
        assert(transforms[i].0 == id && transforms[i].1.contains(raw));
    }
    if exists|i: int|
        0 <= i < config.sinks.len() && (#[trigger] config.sinks[i]).0 == id
            && config.sinks[i].1.inputs.contains(raw) {
        let i = choose|i: int|
            0 <= i < config.sinks.len() && (#[trigger] config.sinks[i]).0 == id
                && config.sinks[i].1.inputs.contains(raw);
        assert(sinks[i].0 == id && sinks[i].1.contains(raw));
    }
}

/// A component of the name has the input.
spec fn reads(
    components: Seq<(Seq<char>, Seq<Seq<char>>)>,
    id: Seq<char>,
    raw: Seq<char>,
) -> bool {
    exists|i: int|
        0 <= i < components.len() && (#[trigger] components[i]).0 == id
            && components[i].1.contains(raw)
}

proof fn lemma_either_contains<T>(head: Seq<T>, tail: Seq<T>, item: T)
    ensures
        (head + tail).contains(item) <==> head.contains(item) || tail.contains(item),
{
    let both = head + tail;
    if head.contains(item) {
        assert(both[head.index_of(item)] == item);
    }
    if tail.contains(item) {
        assert(both[head.len() + tail.index_of(item)] == item);
    }
    if both.contains(item) {
        let k = both.index_of(item);
        if k < head.len() {
            assert(head[k] == item);
        } else {
            assert(tail[k - head.len()] == item);
        }
    }
}

proof fn lemma_invalid_inputs(
    owner: Seq<char>,
    inputs: Seq<Seq<char>>,
    id: Seq<char>,
    raw: Seq<char>,
)
    ensures
        invalid_inputs(owner, inputs).contains((id, raw)) <==> owner == id && inputs.contains(raw)
            && is_invalid_pattern(raw),
    decreases inputs.len(),
{
    if inputs.len() > 0 {
        let front = inputs.drop_last();
        let last = inputs.last();
        lemma_invalid_inputs(owner, front, id, raw);
        lemma_either_contains(front, seq![last], raw);
        assert(front + seq![last] =~= inputs);
        assert(seq![last].contains(raw) <==> last == raw) by {
            if last == raw {
                assert(seq![last][0] == raw);
            }
        }
        if is_invalid_pattern(last) {
            let more = seq![(owner, last)];
            lemma_either_contains(invalid_inputs(owner, front), more, (id, raw));
            assert(invalid_inputs(owner, front) + more =~= invalid_inputs(owner, inputs));
            assert(more.contains((id, raw)) <==> owner == id && last == raw) by {
                if owner == id && last == raw {
                    assert(more[0] == (id, raw));
                }
            }
        }
    }
}

proof fn lemma_all_invalid(
    components: Seq<(Seq<char>, Seq<Seq<char>>)>,
    id: Seq<char>,
    raw: Seq<char>,
)
    ensures
        all_invalid_inputs(components).contains((id, raw)) <==> is_invalid_pattern(raw) && reads(
            components,
            id,
            raw,
        ),
    decreases components.len(),
{
    if components.len() > 0 {
        let front = components.drop_last();
        let last = components.last();
        lemma_all_invalid(front, id, raw);
        lemma_invalid_inputs(last.0, last.1, id, raw);
        lemma_either_contains(
            all_invalid_inputs(front),
            invalid_inputs(last.0, last.1),
            (id, raw),
        );
        if reads(front, id, raw) {
            let i = choose|i: int|
                0 <= i < front.len() && (#[trigger] front[i]).0 == id && front[i].1.contains(raw);
            assert(components[i].0 == id && components[i].1.contains(raw));
        }
        if last.0 == id && last.1.contains(raw) {
            assert(components[components.len() - 1].0 == id);
        }
        if reads(components, id, raw) && !(last.0 == id && last.1.contains(raw)) {
            let i = choose|i: int|
                0 <= i < components.len() && (#[trigger] components[i]).0 == id
                    && components[i].1.contains(raw);
            assert(front[i].0 == id && front[i].1.contains(raw));
        }
    }
}

/// What an input picks is a candidate that it matches, and never the component itself.
pub proof fn law_picked(raw: Seq<char>, id: Seq<char>, candidates: Seq<Seq<char>>, name: Seq<char>)
    ensures
        picked(raw, id, candidates).contains(name) <==> candidates.contains(name) && input_picks(
            raw,
            name,
        ) && name != id,
{
    let wanted = picks_for(raw, id);
    let found = candidates.filter(wanted);
    if found.contains(name) {
        candidates.lemma_filter_contains_rev(wanted, name);
        let k = choose|k: int| 0 <= k < found.len() && found[k] == name;
        candidates.lemma_filter_pred(wanted, k);
    }
    if candidates.contains(name) && wanted(name) {
        let k = choose|k: int| 0 <= k < candidates.len() && candidates[k] == name;
        candidates.lemma_filter_contains(wanted, k);
    }
}

/// Expansion adds no component to its own inputs: where a component reads from itself, its own
/// name was written down.
pub proof fn law_expansion_adds_no_self_input(
    inputs: Seq<Seq<char>>,
    id: Seq<char>,
    candidates: Seq<Seq<char>>,
)
    ensures
        expanded_inputs(inputs, id, candidates).contains(id) ==> inputs.contains(id),
{
    law_expansion_origin(inputs, id, candidates, id);
}

/// Every input after expansion was written down, or is a candidate that some input picks.
pub proof fn law_expansion_origin(
    inputs: Seq<Seq<char>>,
    id: Seq<char>,
    candidates: Seq<Seq<char>>,
    name: Seq<char>,
)
    ensures
        expanded_inputs(inputs, id, candidates).contains(name) ==> inputs.contains(name) || (
        name != id && candidates.contains(name) && exists|i: int|
            0 <= i < inputs.len() && #[trigger] input_picks(inputs[i], name)),
    decreases inputs.len(),
{
    let after = expanded_inputs(inputs, id, candidates);
    if inputs.len() > 0 && after.contains(name) {
        let front = inputs.drop_last();
        let head = expanded_inputs(front, id, candidates);
        let tail = expanded_input(inputs.last(), id, candidates);
        law_expansion_origin(front, id, candidates, name);
        let k = after.index_of(name);
        if k < head.len() {
            assert(head[k] == name);
            if front.contains(name) {
                let i = front.index_of(name);
                assert(inputs[i] == name);
            } else {
                let i = choose|i: int|
                    0 <= i < front.len() && #[trigger] input_picks(front[i], name);
                assert(input_picks(inputs[i], name));
            }
        } else {
            assert(tail[k - head.len()] == name);
            if has_glob_chars(inputs.last()) && picked(inputs.last(), id, candidates).len() > 0 {
                law_picked(inputs.last(), id, candidates, name);
                assert(input_picks(inputs[inputs.len() - 1], name));
            } else {
                assert(inputs[inputs.len() - 1] == name);
            }
        }
    }
}

/// Inputs without patterns stay as they are.
pub proof fn law_literals_stay(inputs: Seq<Seq<char>>, id: Seq<char>, candidates: Seq<Seq<char>>)
    requires
        forall|i: int| 0 <= i < inputs.len() ==> !has_glob_chars(#[trigger] inputs[i]),
    ensures
        expanded_inputs(inputs, id, candidates) == inputs,
    decreases inputs.len(),
{
    if inputs.len() > 0 {
        let front = inputs.drop_last();
        assert forall|i: int| 0 <= i < front.len() implies !has_glob_chars(
            #[trigger] front[i],
        ) by {
            assert(!has_glob_chars(inputs[i]));
        }
        law_literals_stay(front, id, candidates);
        assert(!has_glob_chars(inputs[inputs.len() - 1]));
        assert(front + seq![inputs.last()] =~= inputs);
    } else {
        assert(inputs =~= Seq::empty());
    }
}

/// No input is lost: each stands in the expanded list, or what it picks does.
pub proof fn law_no_input_is_lost(
    inputs: Seq<Seq<char>>,
    id: Seq<char>,
    candidates: Seq<Seq<char>>,
    i: int,
    name: Seq<char>,
)
    requires
        0 <= i < inputs.len(),
        expanded_input(inputs[i], id, candidates).contains(name),
    ensures
        expanded_inputs(inputs, id, candidates).contains(name),
        expanded_input(inputs[i], id, candidates).len() > 0,
    decreases inputs.len(),
{
    let front = inputs.drop_last();
    let head = expanded_inputs(front, id, candidates);
    let tail = expanded_input(inputs.last(), id, candidates);
    let after = expanded_inputs(inputs, id, candidates);
    if i == inputs.len() - 1 {
        let k = tail.index_of(name);
        assert(after[head.len() + k] == name);
    } else {
        assert(front[i] == inputs[i]);
        law_no_input_is_lost(front, id, candidates, i, name);
        let k = head.index_of(name);
        assert(after[k] == name);
    }
}

/// Expansion never makes a list of inputs shorter.
pub proof fn law_expansion_never_shortens(
    inputs: Seq<Seq<char>>,
    id: Seq<char>,
    candidates: Seq<Seq<char>>,
)
    ensures
        expanded_inputs(inputs, id, candidates).len() >= inputs.len(),
    decreases inputs.len(),
{
    if inputs.len() > 0 {
        law_expansion_never_shortens(inputs.drop_last(), id, candidates);
    }
}

/// Where no candidate is itself a pattern, expanding a list of inputs a second time changes
/// nothing.
pub proof fn law_expansion_is_idempotent(
    inputs: Seq<Seq<char>>,
    id: Seq<char>,
    candidates: Seq<Seq<char>>,
)
    requires
        forall|i: int| 0 <= i < candidates.len() ==> !has_glob_chars(#[trigger] candidates[i]),
    ensures
        expanded_inputs(expanded_inputs(inputs, id, candidates), id, candidates)
            == expanded_inputs(inputs, id, candidates),
    decreases inputs.len(),
{
    let after = expanded_inputs(inputs, id, candidates);
    if inputs.len() > 0 {
        let front = inputs.drop_last();
        let raw = inputs.last();
        let head = expanded_inputs(front, id, candidates);
        let tail = expanded_input(raw, id, candidates);
        law_expansion_is_idempotent(front, id, candidates);
        lemma_expanded_parts(head, tail, id, candidates);
        if has_glob_chars(raw) && picked(raw, id, candidates).len() > 0 {
            assert forall|i: int| 0 <= i < tail.len() implies !has_glob_chars(
                #[trigger] tail[i],
            ) by {
                law_picked(raw, id, candidates, tail[i]);
                let k = candidates.index_of(tail[i]);
                assert(!has_glob_chars(candidates[k]));
            }
            law_literals_stay(tail, id, candidates);
        } else {
            reveal_with_fuel(expanded_inputs, 2);
            assert(tail.drop_last() =~= Seq::<Seq<char>>::empty());
            assert(Seq::<Seq<char>>::empty() + tail =~= tail);
        }
    }
}

/// A list of inputs can be expanded part by part.
proof fn lemma_expanded_parts(
    head: Seq<Seq<char>>,
    tail: Seq<Seq<char>>,
    id: Seq<char>,
    candidates: Seq<Seq<char>>,
)
    ensures
        expanded_inputs(head + tail, id, candidates) == expanded_inputs(head, id, candidates)
            + expanded_inputs(tail, id, candidates),
    decreases tail.len(),
{
    let first = expanded_inputs(head, id, candidates);
    if tail.len() > 0 {
        let front = tail.drop_last();
        lemma_expanded_parts(head, front, id, candidates);
        assert((head + tail).drop_last() =~= head + front);
        assert((head + tail).last() == tail.last());
        let last = expanded_input(tail.last(), id, candidates);
        assert(first + expanded_inputs(front, id, candidates) + last =~= first + (
        expanded_inputs(front, id, candidates) + last));
    } else {
        assert(head + tail =~= head);
        assert(first + expanded_inputs(tail, id, candidates) =~= first);
    }
}

/// A configuration without patterns is its own expansion.
pub proof fn law_expansion_needs_patterns<D: Domain>(config: ConfigBuilderView<D>)
    requires
        forall|i: int, j: int|
            0 <= i < config.transforms.len() && 0 <= j < config.transforms[i].1.inputs.len()
                ==> !has_glob_chars(#[trigger] config.transforms[i].1.inputs[j]),
        forall|i: int, j: int|
            0 <= i < config.sinks.len() && 0 <= j < config.sinks[i].1.inputs.len()
                ==> !has_glob_chars(#[trigger] config.sinks[i].1.inputs[j]),
    ensures
        expanded_config(config) == config,
{
    let candidates = glob_candidates(config);
    let after = expanded_config(config);
    assert forall|i: int| 0 <= i < config.transforms.len() implies (
    #[trigger] after.transforms[i]) == config.transforms[i] by {
        law_literals_stay(config.transforms[i].1.inputs, config.transforms[i].0, candidates);
    }
    assert(after.transforms =~= config.transforms);
    assert forall|i: int| 0 <= i < config.sinks.len() implies (
    #[trigger] after.sinks[i]) == config.sinks[i] by {
        law_literals_stay(config.sinks[i].1.inputs, config.sinks[i].0, candidates);
    }
    assert(after.sinks =~= config.sinks);
}

proof fn lemma_set_extended_distinct(items: Seq<Seq<char>>, later: Seq<Seq<char>>)
    requires
        items.no_duplicates(),
    ensures
        set_extended(items, later).no_duplicates(),
    decreases later.len(),
{
    if later.len() > 0 {
        lemma_set_extended_distinct(items, later.drop_last());
    }
}

/// No candidate is listed twice.
pub proof fn law_candidates_distinct<D: Domain>(config: ConfigBuilderView<D>)
    ensures
        glob_candidates(config).no_duplicates(),
{
    let sources = set_extended(Seq::empty(), keys_of(config.sources));
    let named = set_extended(sources, keys_of(config.transforms));
    lemma_set_extended_distinct(Seq::empty(), keys_of(config.sources));
    lemma_set_extended_distinct(sources, keys_of(config.transforms));
    lemma_set_extended_distinct(named, all_port_names(config.transforms));
}

proof fn lemma_set_extended_contains(
    items: Seq<Seq<char>>,
    later: Seq<Seq<char>>,
    name: Seq<char>,
)
    ensures
        set_extended(items, later).contains(name) <==> items.contains(name) || later.contains(name),
    decreases later.len(),
{
    if later.len() > 0 {
        let front = later.drop_last();
        lemma_set_extended_contains(items, front, name);
        let so_far = set_extended(items, front);
        assert(later =~= front.push(later.last()));
        assert(later.contains(name) <==> front.contains(name) || later.last() == name) by {
            if front.contains(name) {
                assert(later[front.index_of(name)] == name);
            }
            if later.last() == name {
                assert(later[later.len() - 1] == name);
            }
            if later.contains(name) && later.last() != name {
                let k = later.index_of(name);
                assert(front[k] == name);
            }
        }
        assert(so_far.push(later.last()).contains(name) <==> so_far.contains(name) || later.last()
            == name) by {
            let pushed = so_far.push(later.last());
            if so_far.contains(name) {
                assert(pushed[so_far.index_of(name)] == name);
            }
            if later.last() == name {
                assert(pushed[so_far.len() as int] == name);
            }
            if pushed.contains(name) && later.last() != name {
                let k = pushed.index_of(name);
                assert(so_far[k] == name);
            }
        }
    }
}

/// Every source and every transform is a candidate.
pub proof fn law_components_are_candidates<D: Domain>(
    config: ConfigBuilderView<D>,
    name: Seq<char>,
)
    ensures
        keys_of(config.sources).contains(name) || keys_of(config.transforms).contains(name)
            ==> glob_candidates(config).contains(name),
{
    let sources = set_extended(Seq::empty(), keys_of(config.sources));
    let named = set_extended(sources, keys_of(config.transforms));
    lemma_set_extended_contains(Seq::empty(), keys_of(config.sources), name);
    lemma_set_extended_contains(sources, keys_of(config.transforms), name);
    lemma_set_extended_contains(named, all_port_names(config.transforms), name);
}

// ---------------------------------------------------------------------------------------------
// What patterns are matched against, and what comes of them.
// ---------------------------------------------------------------------------------------------

/// A text is written as a pattern: it holds a star, a question mark or an opening bracket.
pub open spec fn looks_like_pattern(s: Seq<char>) -> bool {
    exists|k: int| 0 <= k < s.len() && (#[trigger] s[k] == '*' || s[k] == '?' || s[k] == '[')
}

/// A text is written as a pattern, and holds a dot.
pub open spec fn looks_beyond_a_dot(s: Seq<char>) -> bool {
    looks_like_pattern(s) && exists|k: int| 0 <= k < s.len() && #[trigger] s[k] == '.'
}

/// Some transform or some sink reads from a pattern with a dot.
pub open spec fn asks_for_ports<D: Domain>(config: ConfigBuilderView<D>) -> bool {
    ||| exists|i: int, j: int|
        0 <= i < config.transforms.len() && 0 <= j < config.transforms[i].1.inputs.len()
            && looks_beyond_a_dot(#[trigger] config.transforms[i].1.inputs[j])
    ||| exists|i: int, j: int|
        0 <= i < config.sinks.len() && 0 <= j < config.sinks[i].1.inputs.len()
            && looks_beyond_a_dot(#[trigger] config.sinks[i].1.inputs[j])
}

/// A transform that routes or remaps has a named port, whose full name this is.
pub open spec fn names_port<D: Domain>(
    transforms: Seq<(Seq<char>, TransformView<Seq<char>, D>)>,
    i: int,
    p: int,
    name: Seq<char>,
) -> bool {
    &&& 0 <= i < transforms.len()
    &&& transforms[i].1.component_name == "route"@ || transforms[i].1.component_name
        == "exclusive_route"@ || transforms[i].1.component_name == "remap"@
    &&& 0 <= p < transforms[i].1.ports.len()
    &&& transforms[i].1.ports[p] matches Some(port) && name == transforms[i].0 + seq!['.'] + port
}

/// A pattern of the configuration may pick a name: a source has it, or a transform; or, where some
/// pattern has a dot, it is the full name of a port.
pub open spec fn may_be_picked<D: Domain>(config: ConfigBuilderView<D>, name: Seq<char>) -> bool {
    ||| exists|i: int| 0 <= i < config.sources.len() && (#[trigger] config.sources[i]).0 == name
    ||| exists|i: int|
        0 <= i < config.transforms.len() && (#[trigger] config.transforms[i]).0 == name
    ||| asks_for_ports(config) && exists|i: int, p: int| #[trigger]
        names_port(config.transforms, i, p, name)
}

/// An input picks a name: it matches it as a pattern, or, where it is no valid one, is the name.
pub open spec fn fits(raw: Seq<char>, name: Seq<char>) -> bool {
    ||| glob_is_valid(raw) && glob_matches(raw, name)
    ||| !glob_is_valid(raw) && raw == name
}

/// What an input of a component stands for: where it is a pattern that picks some other name, all
/// other names that it picks; and else itself.
pub open spec fn stands_for<D: Domain>(
    config: ConfigBuilderView<D>,
    id: Seq<char>,
    raw: Seq<char>,
    name: Seq<char>,
) -> bool {
    if looks_like_pattern(raw) && exists|other: Seq<char>| #[trigger]
        may_be_picked(config, other) && fits(raw, other) && other != id {
        may_be_picked(config, name) && fits(raw, name) && name != id
    } else {
        name == raw
    }
}

proof fn lemma_pattern(s: Seq<char>)
    ensures
        has_glob_chars(s) == looks_like_pattern(s),
        is_dotted_glob(s) == looks_beyond_a_dot(s),
{
    if s.contains('*') {
        assert(s[s.index_of('*')] == '*');
    }
    if s.contains('?') {
        assert(s[s.index_of('?')] == '?');
    }
    if s.contains('[') {
        assert(s[s.index_of('[')] == '[');
    }
    if s.contains('.') {
        assert(s[s.index_of('.')] == '.');
    }
}

proof fn lemma_asks_for_ports<D: Domain>(config: ConfigBuilderView<D>)
    ensures
        needs_port_candidates(config) == asks_for_ports(config),
{
    assert forall|s: Seq<char>| #[trigger] is_dotted_glob(s) == looks_beyond_a_dot(s) by {
        lemma_pattern(s);
    }
    if needs_port_candidates(config) {
        if exists|i: int|
            0 <= i < config.transforms.len() && #[trigger] has_dotted_glob(
                config.transforms[i].1.inputs,
            ) {
            let i = choose|i: int|
                0 <= i < config.transforms.len() && #[trigger] has_dotted_glob(
                    config.transforms[i].1.inputs,
                );
            let inputs = config.transforms[i].1.inputs;
            let j = choose|j: int| 0 <= j < inputs.len() && #[trigger] is_dotted_glob(inputs[j]);
            assert(looks_beyond_a_dot(config.transforms[i].1.inputs[j]));
        } else {
            let i = choose|i: int|
                0 <= i < config.sinks.len() && #[trigger] has_dotted_glob(config.sinks[i].1.inputs);
            let inputs = config.sinks[i].1.inputs;
            let j = choose|j: int| 0 <= j < inputs.len() && #[trigger] is_dotted_glob(inputs[j]);
            assert(looks_beyond_a_dot(config.sinks[i].1.inputs[j]));
        }
    }
    if asks_for_ports(config) {
        if exists|i: int, j: int|
            0 <= i < config.transforms.len() && 0 <= j < config.transforms[i].1.inputs.len()
                && looks_beyond_a_dot(#[trigger] config.transforms[i].1.inputs[j]) {
            let (i, j) = choose|i: int, j: int|
                0 <= i < config.transforms.len() && 0 <= j < config.transforms[i].1.inputs.len()
                    && looks_beyond_a_dot(#[trigger] config.transforms[i].1.inputs[j]);
            assert(is_dotted_glob(config.transforms[i].1.inputs[j]));
            assert(has_dotted_glob(config.transforms[i].1.inputs));
        } else {
            let (i, j) = choose|i: int, j: int|
                0 <= i < config.sinks.len() && 0 <= j < config.sinks[i].1.inputs.len()
                    && looks_beyond_a_dot(#[trigger] config.sinks[i].1.inputs[j]);
            assert(is_dotted_glob(config.sinks[i].1.inputs[j]));
            assert(has_dotted_glob(config.sinks[i].1.inputs));
        }
    }
}

/// A list of ports can be named part by part: a named port by the component, a dot and the port,
/// and an unnamed one not at all.
pub proof fn law_port_names_by_parts(
    key: Seq<char>,
    head: Seq<Option<Seq<char>>>,
    tail: Seq<Option<Seq<char>>>,
    port: Seq<char>,
)
    ensures
        port_names(key, head + tail) == port_names(key, head) + port_names(key, tail),
        port_names(key, seq![Some(port)]) == seq![key + seq!['.'] + port],
        port_names(key, seq![None]).len() == 0,
    decreases tail.len(),
{
    let named = seq![Some(port)];
    let unnamed: Seq<Option<Seq<char>>> = seq![None];
    assert(named.drop_last() =~= Seq::empty());
    assert(named.last() == Some(port));
    assert(unnamed.drop_last() =~= Seq::empty());
    assert(unnamed.last() == None::<Seq<char>>);
    reveal_with_fuel(port_names, 2);
    assert(port_names(key, named) =~= seq![key + seq!['.'] + port]);
    if tail.len() > 0 {
        law_port_names_by_parts(key, head, tail.drop_last(), port);
        assert((head + tail).drop_last() =~= head + tail.drop_last());
        assert((head + tail).last() == tail.last());
    } else {
        assert(head + tail =~= head);
    }
    assert(port_names(key, head + tail) =~= port_names(key, head) + port_names(key, tail));
}

/// The ports of a list of transforms can be named part by part: those of a transform that routes or
/// remaps are named, and those of any other are not.
pub proof fn law_all_ports_by_parts<D: Domain>(
    head: Seq<(Seq<char>, TransformView<Seq<char>, D>)>,
    tail: Seq<(Seq<char>, TransformView<Seq<char>, D>)>,
    transform: (Seq<char>, TransformView<Seq<char>, D>),
)
    ensures
        all_port_names(head + tail) == all_port_names(head) + all_port_names(tail),
        all_port_names(seq![transform]) == if transform.1.component_name == "route"@
            || transform.1.component_name == "exclusive_route"@ || transform.1.component_name
            == "remap"@ {
            port_names(transform.0, transform.1.ports)
        } else {
            seq![]
        },
    decreases tail.len(),
{
    let one = seq![transform];
    assert(one.drop_last() =~= Seq::empty());
    assert(one.last() == transform);
    reveal_with_fuel(all_port_names, 2);
    assert(Seq::<Seq<char>>::empty() + port_names(transform.0, transform.1.ports) =~= port_names(
        transform.0,
        transform.1.ports,
    ));
    if tail.len() > 0 {
        law_all_ports_by_parts(head, tail.drop_last(), transform);
        assert((head + tail).drop_last() =~= head + tail.drop_last());
        assert((head + tail).last() == tail.last());
    } else {
        assert(head + tail =~= head);
    }
    assert(all_port_names(head + tail) =~= all_port_names(head) + all_port_names(tail));
}

proof fn lemma_port_named(key: Seq<char>, ports: Seq<Option<Seq<char>>>, name: Seq<char>)
    ensures
        port_names(key, ports).contains(name) <==> exists|p: int|
            0 <= p < ports.len() && (#[trigger] ports[p] matches Some(port) && name == key
                + seq!['.'] + port),
    decreases ports.len(),
{
    if ports.len() > 0 {
        let front = ports.drop_last();
        let last = ports.len() - 1;
        lemma_port_named(key, front, name);
        assert(ports[last] == ports.last());
        assert forall|p: int| 0 <= p < last implies #[trigger] front[p] == ports[p] by {}
        let head = port_names(key, front);
        if let Some(port) = ports.last() {
            let only = key + seq!['.'] + port;
            let all = port_names(key, ports);
            assert(all == head.push(only));
            if head.contains(name) {
                assert(all[head.index_of(name)] == name);
            }
            if name == only {
                assert(all[head.len() as int] == name);
            }
            if all.contains(name) && name != only {
                assert(head[all.index_of(name)] == name);
            }
        }
        if exists|p: int|
            0 <= p < ports.len() && (#[trigger] ports[p] matches Some(port) && name == key
                + seq!['.'] + port) {
            let p = choose|p: int|
                0 <= p < ports.len() && (#[trigger] ports[p] matches Some(port) && name == key
                    + seq!['.'] + port);
            if p < last {
                assert(front[p] == ports[p]);
            }
        }
        if head.contains(name) {
            let p = choose|p: int|
                0 <= p < front.len() && (#[trigger] front[p] matches Some(port) && name == key
                    + seq!['.'] + port);
            assert(ports[p] == front[p]);
        }
    }
}

proof fn lemma_ports_named<D: Domain>(
    transforms: Seq<(Seq<char>, TransformView<Seq<char>, D>)>,
    name: Seq<char>,
)
    ensures
        all_port_names(transforms).contains(name) <==> exists|i: int, p: int| #[trigger]
            names_port(transforms, i, p, name),
    decreases transforms.len(),
{
    if transforms.len() > 0 {
        let front = transforms.drop_last();
        let last = transforms.len() - 1;
        let transform = transforms.last();
        lemma_ports_named(front, name);
        assert(transforms[last] == transform);
        assert forall|i: int, p: int| #[trigger] names_port(front, i, p, name) implies names_port(
            transforms,
            i,
            p,
            name,
        ) by {}
        let head = all_port_names(front);
        let tail = port_names(transform.0, transform.1.ports);
        lemma_port_named(transform.0, transform.1.ports, name);
        lemma_either_contains(head, tail, name);
        if head.contains(name) {
            let (i, p) = choose|i: int, p: int| #[trigger] names_port(front, i, p, name);
            assert(names_port(transforms, i, p, name));
        }
        if is_multi_output(transform.1.component_name) && tail.contains(name) {
            let ports = transform.1.ports;
            let p = choose|p: int|
                0 <= p < ports.len() && (#[trigger] ports[p] matches Some(port) && name
                    == transform.0 + seq!['.'] + port);
            assert(names_port(transforms, last, p, name));
        }
        if exists|i: int, p: int| #[trigger] names_port(transforms, i, p, name) {
            let (i, p) = choose|i: int, p: int| #[trigger] names_port(transforms, i, p, name);
            if i < last {
                assert(names_port(front, i, p, name));
            } else {
                assert(transform.1.ports[p] is Some);
            }
        }
    }
}

proof fn lemma_key_listed<V>(entries: Seq<(Seq<char>, V)>, name: Seq<char>)
    ensures
        keys_of(entries).contains(name) <==> exists|i: int|
            0 <= i < entries.len() && (#[trigger] entries[i]).0 == name,
{
    let keys = keys_of(entries);
    if keys.contains(name) {
        let i = keys.index_of(name);
        assert(entries[i].0 == name);
    }
    if exists|i: int| 0 <= i < entries.len() && (#[trigger] entries[i]).0 == name {
        let i = choose|i: int| 0 <= i < entries.len() && (#[trigger] entries[i]).0 == name;
        assert(keys[i] == name);
    }
}

/// The candidates are the sources and the transforms, and, where some input is a pattern with a
/// dot, the named ports of the transforms that route or remap. There is no other.
pub proof fn law_candidates<D: Domain>(config: ConfigBuilderView<D>, name: Seq<char>)
    ensures
        glob_candidates(config).contains(name) <==> may_be_picked(config, name),
{
    let sources = set_extended(Seq::empty(), keys_of(config.sources));
    let named = set_extended(sources, keys_of(config.transforms));
    lemma_set_extended_contains(Seq::empty(), keys_of(config.sources), name);
    lemma_set_extended_contains(sources, keys_of(config.transforms), name);
    lemma_set_extended_contains(named, all_port_names(config.transforms), name);
    lemma_key_listed(config.sources, name);
    lemma_key_listed(config.transforms, name);
    lemma_ports_named(config.transforms, name);
    lemma_asks_for_ports(config);
}

proof fn lemma_set_extended_appends(items: Seq<Seq<char>>, later: Seq<Seq<char>>)
    requires
        (items + later).no_duplicates(),
    ensures
        set_extended(items, later) == items + later,
    decreases later.len(),
{
    if later.len() > 0 {
        let front = later.drop_last();
        let both = items + front;
        let all = items + later;
        assert(both =~= all.drop_last());
        assert forall|i: int, j: int|
            0 <= i < both.len() && 0 <= j < both.len() && i != j implies both[i] != both[j] by {
            assert(both[i] == all[i] && both[j] == all[j]);
        }
        lemma_set_extended_appends(items, front);
        if both.contains(later.last()) {
            let k = both.index_of(later.last());
            assert(all[k] == all[all.len() - 1]);
        }
        assert(both.push(later.last()) =~= all);
    } else {
        assert(items + later =~= items);
    }
}

/// Where no name comes twice, the candidates stand in this order: the sources as they are listed,
/// then the transforms, and then the ports, transform by transform.
pub proof fn law_candidates_in_order<D: Domain>(config: ConfigBuilderView<D>)
    requires
        (keys_of(config.sources) + keys_of(config.transforms) + all_port_names(
            config.transforms,
        )).no_duplicates(),
    ensures
        glob_candidates(config) == if asks_for_ports(config) {
            keys_of(config.sources) + keys_of(config.transforms) + all_port_names(config.transforms)
        } else {
            keys_of(config.sources) + keys_of(config.transforms)
        },
{
    let sources = keys_of(config.sources);
    let transforms = keys_of(config.transforms);
    let named = sources + transforms;
    let ports = all_port_names(config.transforms);
    let all = named + ports;
    assert forall|i: int, j: int|
        0 <= i < named.len() && 0 <= j < named.len() && i != j implies named[i] != named[j] by {
        assert(named[i] == all[i] && named[j] == all[j]);
    }
    let none = Seq::<Seq<char>>::empty();
    let first = none + sources;
    assert(first =~= sources);
    assert forall|i: int, j: int|
        0 <= i < first.len() && 0 <= j < first.len() && i != j implies first[i] != first[j] by {
        assert(first[i] == named[i] && first[j] == named[j]);
    }
    lemma_set_extended_appends(none, sources);
    lemma_set_extended_appends(sources, transforms);
    lemma_set_extended_appends(named, ports);
    lemma_asks_for_ports(config);
}

/// A list of inputs can be expanded part by part. An input that is no pattern stays. A pattern
/// becomes the candidates that it picks, in their order and without the component itself; where
/// there is none, it stays.
pub proof fn law_expansion_by_parts(
    head: Seq<Seq<char>>,
    tail: Seq<Seq<char>>,
    raw: Seq<char>,
    id: Seq<char>,
    candidates: Seq<Seq<char>>,
)
    ensures
        expanded_inputs(head + tail, id, candidates) == expanded_inputs(head, id, candidates)
            + expanded_inputs(tail, id, candidates),
        ({
            let wanted = candidates.filter(|c: Seq<char>| fits(raw, c) && c != id);
            expanded_inputs(seq![raw], id, candidates) == if looks_like_pattern(raw) && wanted.len()
                > 0 {
                wanted
            } else {
                seq![raw]
            }
        }),
{
    lemma_expanded_parts(head, tail, id, candidates);
    let one = seq![raw];
    assert(one.drop_last() =~= Seq::empty());
    assert(one.last() == raw);
    reveal_with_fuel(expanded_inputs, 2);
    lemma_pattern(raw);
    let wanted = |c: Seq<char>| fits(raw, c) && c != id;
    assert(wanted =~= picks_for(raw, id));
    assert(expanded_inputs(one, id, candidates) =~= expanded_input(raw, id, candidates));
}

proof fn lemma_stands_for<D: Domain>(
    config: ConfigBuilderView<D>,
    id: Seq<char>,
    inputs: Seq<Seq<char>>,
    name: Seq<char>,
)
    ensures
        expanded_inputs(inputs, id, glob_candidates(config)).contains(name) <==> exists|j: int|
            0 <= j < inputs.len() && #[trigger] stands_for(config, id, inputs[j], name),
    decreases inputs.len(),
{
    if inputs.len() > 0 {
        let front = inputs.drop_last();
        let last = inputs.len() - 1;
        let raw = inputs.last();
        let candidates = glob_candidates(config);
        let found = picked(raw, id, candidates);
        lemma_stands_for(config, id, front, name);
        assert(inputs[last] == raw);
        let head = expanded_inputs(front, id, candidates);
        let tail = expanded_input(raw, id, candidates);
        lemma_either_contains(head, tail, name);
        lemma_pattern(raw);
        law_candidates(config, name);
        law_picked(raw, id, candidates, name);
        if found.len() > 0 {
            let other = found[0];
            assert(found.contains(other));
            law_picked(raw, id, candidates, other);
            law_candidates(config, other);
            assert(may_be_picked(config, other) && fits(raw, other) && other != id);
        }
        if exists|other: Seq<char>| #[trigger]
            may_be_picked(config, other) && fits(raw, other) && other != id {
            let other = choose|other: Seq<char>| #[trigger]
                may_be_picked(config, other) && fits(raw, other) && other != id;
            law_candidates(config, other);
            law_picked(raw, id, candidates, other);
            assert(found.len() > 0);
        }
        let here = stands_for(config, id, inputs[last], name);
        assert(seq![raw].contains(name) <==> name == raw) by {
            assert(seq![raw][0] == raw);
        }
        assert(tail.contains(name) <==> here);
        if head.contains(name) {
            let j = choose|j: int|
                0 <= j < front.len() && #[trigger] stands_for(config, id, front[j], name);
            assert(stands_for(config, id, inputs[j], name));
        }
        if exists|j: int|
            0 <= j < inputs.len() && #[trigger] stands_for(config, id, inputs[j], name) {
            let j = choose|j: int|
                0 <= j < inputs.len() && #[trigger] stands_for(config, id, inputs[j], name);
            if j < last {
                assert(stands_for(config, id, front[j], name));
            }
        }
    }
}

/// Expanding the patterns of a configuration changes the inputs of its transforms and sinks, and
/// nothing else. A transform or a sink then reads from a name exactly where one of the inputs that
/// were written for it stands for that name.
pub proof fn law_expanded_config<D: Domain>(
    config: ConfigBuilderView<D>,
    after: ConfigBuilderView<D>,
    name: Seq<char>,
)
    requires
        after == expanded_config(config),
    ensures
        after.global == config.global,
        after.api == config.api,
        after.schema == config.schema,
        after.healthchecks == config.healthchecks,
        after.enrichment_tables == config.enrichment_tables,
        after.sources == config.sources,
        after.tests == config.tests,
        after.provider == config.provider,
        after.secret == config.secret,
        after.graceful_shutdown_duration == config.graceful_shutdown_duration,
        after.allow_empty == config.allow_empty,
        after.transforms.len() == config.transforms.len(),
        forall|i: int|
            0 <= i < config.transforms.len() ==> {
                let was = config.transforms[i];
                let now = #[trigger] after.transforms[i];
                &&& now.0 == was.0
                &&& now.1.component_name == was.1.component_name
                &&& now.1.ports == was.1.ports
                &&& now.1.inner == was.1.inner
                &&& now.1.inputs.contains(name) <==> exists|j: int|
                    0 <= j < was.1.inputs.len() && #[trigger] stands_for(
                        config,
                        was.0,
                        was.1.inputs[j],
                        name,
                    )
            },
        after.sinks.len() == config.sinks.len(),
        forall|i: int|
            0 <= i < config.sinks.len() ==> {
                let was = config.sinks[i];
                let now = #[trigger] after.sinks[i];
                &&& now.0 == was.0
                &&& now.1.inner == was.1.inner
                &&& now.1.inputs.contains(name) <==> exists|j: int|
                    0 <= j < was.1.inputs.len() && #[trigger] stands_for(
                        config,
                        was.0,
                        was.1.inputs[j],
                        name,
                    )
            },
{
    assert forall|i: int| 0 <= i < config.transforms.len() implies ({
        let was = config.transforms[i];
        let now = #[trigger] after.transforms[i];
        now.1.inputs.contains(name) <==> exists|j: int|
            0 <= j < was.1.inputs.len() && #[trigger] stands_for(
                config,
                was.0,
                was.1.inputs[j],
                name,
            )
    }) by {
        lemma_stands_for(config, config.transforms[i].0, config.transforms[i].1.inputs, name);
    }
    assert forall|i: int| 0 <= i < config.sinks.len() implies ({
        let was = config.sinks[i];
        let now = #[trigger] after.sinks[i];
        now.1.inputs.contains(name) <==> exists|j: int|
            0 <= j < was.1.inputs.len() && #[trigger] stands_for(
                config,
                was.0,
                was.1.inputs[j],
                name,
            )
    }) by {
        lemma_stands_for(config, config.sinks[i].0, config.sinks[i].1.inputs, name);
    }
}

/// An input of a component is listed exactly where a transform or a sink of that name has it, it
/// holds a star, a question mark or an opening bracket, and it is no valid pattern.
pub proof fn law_invalid_inputs_are_listed<D: Domain>(
    config: ConfigBuilder<D>,
    list: Vec<(String, String)>,
    id: Seq<char>,
    raw: Seq<char>,
)
    requires
        call_ensures(invalid_patterns::<D>, (&config,), list),
    ensures
        (exists|k: int|
            0 <= k < list@.len() && (#[trigger] list@[k]).0@ == id && list@[k].1@ == raw)
            <==> looks_like_pattern(raw) && !glob_is_valid(raw) && ((exists|i: int|
            0 <= i < config@.transforms.len() && (#[trigger] config@.transforms[i]).0 == id
                && config@.transforms[i].1.inputs.contains(raw)) || (exists|i: int|
            0 <= i < config@.sinks.len() && (#[trigger] config@.sinks[i]).0 == id
                && config@.sinks[i].1.inputs.contains(raw))),
{
    lemma_pattern(raw);
    law_invalid_patterns(config@, id, raw);
    let all = text_pairs(list@);
    if all.contains((id, raw)) {
        let k = all.index_of((id, raw));
        assert(list@[k].0@ == id && list@[k].1@ == raw);
    }
    if exists|k: int|
        0 <= k < list@.len() && (#[trigger] list@[k]).0@ == id && list@[k].1@ == raw {
        let k = choose|k: int|
            0 <= k < list@.len() && (#[trigger] list@[k]).0@ == id && list@[k].1@ == raw;
        assert(all[k] == (id, raw));
    }
}

/// Inputs that look like patterns and are none can be listed part by part, component by component
/// and input by input, each with the name of its component.
pub proof fn law_invalid_by_parts(
    head: Seq<(Seq<char>, Seq<Seq<char>>)>,
    tail: Seq<(Seq<char>, Seq<Seq<char>>)>,
    id: Seq<char>,
    inputs: Seq<Seq<char>>,
    more: Seq<Seq<char>>,
    raw: Seq<char>,
)
    ensures
        all_invalid_inputs(head + tail) == all_invalid_inputs(head) + all_invalid_inputs(tail),
        all_invalid_inputs(seq![(id, inputs + more)]) == all_invalid_inputs(seq![(id, inputs)])
            + all_invalid_inputs(seq![(id, more)]),
        all_invalid_inputs(seq![(id, seq![raw])]) == if looks_like_pattern(raw) && !glob_is_valid(
            raw,
        ) {
            seq![(id, raw)]
        } else {
            seq![]
        },
    decreases tail.len(),
{
    lemma_one_component(id, inputs + more);
    lemma_one_component(id, inputs);
    lemma_one_component(id, more);
    lemma_one_component(id, seq![raw]);
    lemma_invalid_parts(id, inputs, more);
    lemma_pattern(raw);
    let one = seq![raw];
    assert(one.drop_last() =~= Seq::empty());
    assert(one.last() == raw);
    reveal_with_fuel(invalid_inputs, 2);
    assert(Seq::empty().push((id, raw)) =~= seq![(id, raw)]);
    if tail.len() > 0 {
        law_invalid_by_parts(head, tail.drop_last(), id, inputs, more, raw);
        assert((head + tail).drop_last() =~= head + tail.drop_last());
        assert((head + tail).last() == tail.last());
    } else {
        assert(head + tail =~= head);
    }
    assert(all_invalid_inputs(head + tail) =~= all_invalid_inputs(head) + all_invalid_inputs(tail));
}

proof fn lemma_one_component(id: Seq<char>, inputs: Seq<Seq<char>>)
    ensures
        all_invalid_inputs(seq![(id, inputs)]) == invalid_inputs(id, inputs),
{
    let one = seq![(id, inputs)];
    assert(one.drop_last() =~= Seq::empty());
    assert(one.last() == (id, inputs));
    reveal_with_fuel(all_invalid_inputs, 2);
    assert(Seq::empty() + invalid_inputs(id, inputs) =~= invalid_inputs(id, inputs));
}

proof fn lemma_invalid_parts(id: Seq<char>, head: Seq<Seq<char>>, tail: Seq<Seq<char>>)
    ensures
        invalid_inputs(id, head + tail) == invalid_inputs(id, head) + invalid_inputs(id, tail),
    decreases tail.len(),
{
    if tail.len() > 0 {
        lemma_invalid_parts(id, head, tail.drop_last());
        assert((head + tail).drop_last() =~= head + tail.drop_last());
        assert((head + tail).last() == tail.last());
    } else {
        assert(head + tail =~= head);
    }
    assert(invalid_inputs(id, head + tail) =~= invalid_inputs(id, head) + invalid_inputs(id, tail));
}

} // verus!

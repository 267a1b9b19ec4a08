//! From a configuration as it is written down to one that can be built.
//!
//! The checks of a configuration and the graph of its components are worked out elsewhere.
//! [`compile`] takes what each of them reported and says what comes next.

use vstd::prelude::*;

use crate::config::globs::{expand_globs, expanded_config};
use crate::config::{
    clone_ids, viewed, views, Config, ConfigBuilder, ConfigBuilderView, ConfigView, Domain,
    EnrichmentTableOuter, OutputId, OutputIdView, SinkOuter, SinkView, SourceOuter, TableView,
    TransformOuter, TransformView,
};
use crate::ordered::{
    distinct_keys, extended, keys_of, lemma_extended_distinct, lemma_rekeyed, lemma_slot_mapped,
    lemma_upsert_lookup, lookup, pairs, ComponentMap,
};
use crate::text::{opt_text, texts};

verus! {

// ---------------------------------------------------------------------------------------------
// What the work outside is handed.
// ---------------------------------------------------------------------------------------------

/// Appends the keys of a map to a list.
fn push_keys<V>(names: &mut Vec<String>, map: &ComponentMap<V>)
    ensures
        texts(final(names)@) == texts(old(names)@) + keys_of(map@),
{
    let ghost before = texts(names@);
    let ghost keys = keys_of(map@);
    assert(before + keys.take(0) =~= before);
    let mut i: usize = 0;
    while i < map.len()
        invariant
            i <= map@.len(),
            keys == keys_of(map@),
            texts(names@) == before + keys.take(i as int),
        decreases map@.len() - i,
    {
        let ghost so_far = names@;
        names.push(map.key_at(i).clone());
        proof {
            assert(texts(names@) =~= texts(so_far).push(map@[i as int].0));
            assert(keys.take(i + 1) =~= keys.take(i as int).push(map@[i as int].0));
            assert(texts(names@) =~= before + keys.take(i + 1));
        }
        i += 1;
    }
    assert(keys.take(keys.len() as int) =~= keys);
}

/// The names that have to be checked: those of the transforms, the sources and the sinks. They
/// are checked as they are written down, before anything is expanded.
pub fn names_to_check<D: Domain>(builder: &ConfigBuilder<D>) -> (names: Vec<String>)
    ensures
        texts(names@) == keys_of(builder@.transforms) + keys_of(builder@.sources) + keys_of(
            builder@.sinks,
        ),
{
    let mut names: Vec<String> = Vec::new();
    push_keys(&mut names, &builder.transforms);
    push_keys(&mut names, &builder.sources);
    push_keys(&mut names, &builder.sinks);
    proof {
        assert(keys_of(builder@.transforms) =~= keys_of(builder.transforms@));
        assert(keys_of(builder@.sinks) =~= keys_of(builder.sinks@));
        assert(texts(names@) =~= keys_of(builder@.transforms) + keys_of(builder@.sources)
            + keys_of(builder@.sinks));
    }
    names
}

/// A sink that is lent out.
pub struct SinkRef<'a, T, D: Domain> {
    pub inputs: &'a Vec<T>,
    pub inner: &'a D::Sink,
}

impl<'a, T: View, D: Domain> View for SinkRef<'a, T, D> {
    type V = SinkView<T::V, D>;

    open spec fn view(&self) -> SinkView<T::V, D> {
        SinkView { inputs: views(self.inputs@), inner: *self.inner }
    }
}

/// The sinks that enrichment tables are fed through, in the order of the tables.
pub open spec fn table_sinks<T, D: Domain>(tables: Seq<(Seq<char>, TableView<T, D>)>) -> Seq<
    (Seq<char>, SinkView<T, D>),
>
    decreases tables.len(),
{
    if tables.len() == 0 {
        Seq::empty()
    } else {
        let front = table_sinks(tables.drop_last());
        let table = tables.last().1;
        match table.sink {
            Some(sink) => front.push((sink.0, SinkView { inputs: table.inputs, inner: sink.1 })),
            None => front,
        }
    }
}

/// The sources that enrichment tables are read through, in the order of the tables.
pub open spec fn table_sources<T, D: Domain>(tables: Seq<(Seq<char>, TableView<T, D>)>) -> Seq<
    (Seq<char>, SourceOuter<D>),
>
    decreases tables.len(),
{
    if tables.len() == 0 {
        Seq::empty()
    } else {
        let front = table_sources(tables.drop_last());
        match tables.last().1.source {
            Some(source) => front.push(source),
            None => front,
        }
    }
}

/// A list of tables can be looked at part by part: a table that has a sink stands for that sink,
/// under its name and reading from the inputs of the table; a table that has a source stands for
/// that source; and no other table stands for anything.
pub proof fn law_tables_by_parts<T, D: Domain>(
    head: Seq<(Seq<char>, TableView<T, D>)>,
    tail: Seq<(Seq<char>, TableView<T, D>)>,
    key: Seq<char>,
    table: TableView<T, D>,
)
    ensures
        table_sinks(head + tail) == table_sinks(head) + table_sinks(tail),
        table_sources(head + tail) == table_sources(head) + table_sources(tail),
        match table.sink {
            Some((name, inner)) => table_sinks(seq![(key, table)]) == seq![
                (name, SinkView::<T, D> { inputs: table.inputs, inner }),
            ],
            None => table_sinks(seq![(key, table)]).len() == 0,
        },
        match table.source {
            Some(source) => table_sources(seq![(key, table)]) == seq![source],
            None => table_sources(seq![(key, table)]).len() == 0,
        },
    decreases tail.len(),
{
    let one = seq![(key, table)];
    assert(one.drop_last() =~= Seq::empty());
    assert(one.last() == (key, table));
    reveal_with_fuel(table_sinks, 2);
    reveal_with_fuel(table_sources, 2);
    if let Some(sink) = table.sink {
        assert(table_sinks(one) =~= seq![
            (sink.0, SinkView::<T, D> { inputs: table.inputs, inner: sink.1 }),
        ]);
    }
    if let Some(source) = table.source {
        assert(table_sources(one) =~= seq![source]);
    }
    if tail.len() > 0 {
        law_tables_by_parts(head, tail.drop_last(), key, table);
        assert((head + tail).drop_last() =~= head + tail.drop_last());
        assert((head + tail).last() == tail.last());
    } else {
        assert(head + tail =~= head);
    }
    assert(table_sinks(head + tail) =~= table_sinks(head) + table_sinks(tail));
    assert(table_sources(head + tail) =~= table_sources(head) + table_sources(tail));
}

/// The sinks that enrichment tables are fed through.
pub fn list_table_sinks<'a, T: View, D: Domain>(
    tables: &'a ComponentMap<EnrichmentTableOuter<T, D>>,
) -> (sinks: Vec<(String, SinkRef<'a, T, D>)>)
    ensures
        viewed(pairs(sinks@)) == table_sinks(viewed(tables@)),
{
    let ghost all = viewed(tables@);
    let mut sinks: Vec<(String, SinkRef<'a, T, D>)> = Vec::new();
    assert(all.take(0).len() == 0);
    assert(viewed(pairs(sinks@)) =~= table_sinks(all.take(0)));
    let mut i: usize = 0;
    while i < tables.len()
        invariant
            i <= tables@.len(),
            all == viewed(tables@),
            viewed(pairs(sinks@)) == table_sinks(all.take(i as int)),
        decreases tables@.len() - i,
    {
        let table = tables.value_at(i);
        proof {
            assert(all.take(i + 1).drop_last() =~= all.take(i as int));
            assert(all.take(i + 1).last().1 == table@);
        }
        if let Some(sink) = &table.sink {
            let ghost so_far = sinks@;
            let lent = SinkRef { inputs: &table.inputs, inner: &sink.1 };
            sinks.push((sink.0.clone(), lent));
            assert(viewed(pairs(sinks@)) =~= viewed(pairs(so_far)).push((sink.0@, lent@)));
        }
        i += 1;
    }
    assert(all.take(all.len() as int) =~= all);
    sinks
}

/// The sources that enrichment tables are read through.
pub fn list_table_sources<'a, T: View, D: Domain>(
    tables: &'a ComponentMap<EnrichmentTableOuter<T, D>>,
) -> (sources: Vec<(String, &'a SourceOuter<D>)>)
    ensures
        lent(pairs(sources@)) == table_sources(viewed(tables@)),
{
    let ghost all = viewed(tables@);
    let mut sources: Vec<(String, &'a SourceOuter<D>)> = Vec::new();
    assert(all.take(0).len() == 0);
    assert(lent(pairs(sources@)) =~= table_sources(all.take(0)));
    let mut i: usize = 0;
    while i < tables.len()
        invariant
            i <= tables@.len(),
            all == viewed(tables@),
            lent(pairs(sources@)) == table_sources(all.take(i as int)),
        decreases tables@.len() - i,
    {
        let table = tables.value_at(i);
        proof {
            assert(all.take(i + 1).drop_last() =~= all.take(i as int));
            assert(all.take(i + 1).last().1 == table@);
        }
        if let Some(source) = &table.source {
            let ghost so_far = sources@;
            sources.push((source.0.clone(), &source.1));
            assert(lent(pairs(sources@)) =~= lent(pairs(so_far)).push((source.0@, source.1)));
        }
        i += 1;
    }
    assert(all.take(all.len() as int) =~= all);
    sources
}

/// The entries behind a list of entries that are lent out.
pub open spec fn lent<V>(entries: Seq<(Seq<char>, &V)>) -> Seq<(Seq<char>, V)> {
    entries.map_values(|e: (Seq<char>, &V)| (e.0, *e.1))
}

/// Filing entries commutes with looking at what each value stands for.
pub proof fn lemma_extended_viewed<V: View>(
    entries: Seq<(Seq<char>, V)>,
    later: Seq<(Seq<char>, V)>,
)
    requires
        distinct_keys(entries),
    ensures
        viewed(extended(entries, later)) == extended(viewed(entries), viewed(later)),
    decreases later.len(),
{
    if later.len() > 0 {
        let front = later.drop_last();
        lemma_extended_viewed(entries, front);
        assert(viewed(later).drop_last() =~= viewed(front));
        let m = extended(entries, front);
        let key = later.last().0;
        lemma_extended_distinct(entries, front);
        lemma_slot_mapped(m, viewed(m), key);
        assert(viewed(extended(entries, later)) =~= extended(viewed(entries), viewed(later)));
    } else {
        assert(viewed(later).len() == 0);
    }
}

/// Filing entries commutes with lending them out.
proof fn lemma_extended_lent<V>(entries: Seq<(Seq<char>, &V)>, later: Seq<(Seq<char>, &V)>)
    requires
        distinct_keys(entries),
    ensures
        lent(extended(entries, later)) == extended(lent(entries), lent(later)),
    decreases later.len(),
{
    if later.len() > 0 {
        let front = later.drop_last();
        lemma_extended_lent(entries, front);
        assert(lent(later).drop_last() =~= lent(front));
        let m = extended(entries, front);
        let key = later.last().0;
        lemma_extended_distinct(entries, front);
        lemma_slot_mapped(m, lent(m), key);
        assert(lent(extended(entries, later)) =~= extended(lent(entries), lent(later)));
    } else {
        assert(lent(later).len() == 0);
    }
}

/// Lends out the values of a map.
pub fn lend<'a, V>(map: &'a ComponentMap<V>) -> (entries: Vec<(String, &'a V)>)
    ensures
        lent(pairs(entries@)) == map@,
        pairs(entries@).len() == map@.len(),
        distinct_keys(map@),
        distinct_keys(pairs(entries@)),
        extended(Seq::empty(), pairs(entries@)) == pairs(entries@),
{
    let ghost all = map@;
    let mut entries: Vec<(String, &'a V)> = Vec::new();
    let count: usize = map.len();
    let mut i: usize = 0;
    while i < count
        invariant
            i <= count,
            count == all.len(),
            all == map@,
            entries@.len() == i,
            forall|j: int|
                0 <= j < i ==> (#[trigger] entries@[j]).0@ == all[j].0 && *entries@[j].1
                    == all[j].1,
        decreases count - i,
    {
        entries.push((map.key_at(i).clone(), map.value_at(i)));
        i += 1;
    }
    proof {
        lemma_rekeyed(all, entries@);
        assert(lent(pairs(entries@)) =~= all);
    }
    entries
}

/// Lends out the sinks of a map.
pub fn lend_sinks<'a, T: View, D: Domain>(map: &'a ComponentMap<SinkOuter<T, D>>) -> (entries: Vec<
    (String, SinkRef<'a, T, D>),
>)
    ensures
        viewed(pairs(entries@)) == viewed(map@),
        distinct_keys(map@),
        distinct_keys(pairs(entries@)),
        extended(Seq::empty(), pairs(entries@)) == pairs(entries@),
{
    let ghost all = map@;
    let mut entries: Vec<(String, SinkRef<'a, T, D>)> = Vec::new();
    let count: usize = map.len();
    let mut i: usize = 0;
    while i < count
        invariant
            i <= count,
            count == all.len(),
            all == map@,
            entries@.len() == i,
            forall|j: int|
                0 <= j < i ==> (#[trigger] entries@[j]).0@ == all[j].0 && entries@[j].1@
                    == all[j].1@,
        decreases count - i,
    {
        let sink = map.value_at(i);
        entries.push((map.key_at(i).clone(), SinkRef { inputs: &sink.inputs, inner: &sink.inner }));
        i += 1;
    }
    proof {
        lemma_rekeyed(all, entries@);
        assert(viewed(pairs(entries@)) =~= viewed(all));
    }
    entries
}

/// All sinks that a graph has to know: those written down, and then those of enrichment tables.
pub fn all_sinks<'a, D: Domain>(builder: &'a ConfigBuilder<D>) -> (sinks: ComponentMap<
    SinkRef<'a, String, D>,
>)
    ensures
        viewed(sinks@) == extended(builder@.sinks, table_sinks(builder@.enrichment_tables)),
{
    let mut sinks = ComponentMap::from_entries(lend_sinks(&builder.sinks));
    let of_tables = list_table_sinks(&builder.enrichment_tables);
    proof {
        lemma_extended_viewed(sinks@, pairs(of_tables@));
    }
    sinks.extend_entries(of_tables);
    sinks
}

/// All sources that a graph has to know: those written down, and then those of enrichment tables.
pub fn all_sources<'a, D: Domain>(builder: &'a ConfigBuilder<D>) -> (sources: ComponentMap<
    &'a SourceOuter<D>,
>)
    ensures
        lent(sources@) == extended(builder@.sources, table_sources(builder@.enrichment_tables)),
{
    let mut sources = ComponentMap::from_entries(lend(&builder.sources));
    let of_tables = list_table_sources(&builder.enrichment_tables);
    proof {
        lemma_extended_lent(sources@, pairs(of_tables@));
    }
    sources.extend_entries(of_tables);
    sources
}

// ---------------------------------------------------------------------------------------------
// What the work outside reports.
// ---------------------------------------------------------------------------------------------

/// What the four checks on an expanded configuration found.
pub struct Checks {
    /// The shape of the configuration.
    pub shape: Result<(), Vec<String>>,
    /// The resources that components claim.
    pub resources: Result<(), Vec<String>>,
    /// The outputs that components declare.
    pub outputs: Result<(), Vec<String>>,
    /// The weight by which buffer utilization is averaged.
    pub alpha: Result<(), Vec<String>>,
}

/// What the graph of the components gives.
pub struct GraphReport<D: Domain> {
    /// Whether the outputs fit the inputs that they feed.
    pub typecheck: Result<(), Vec<String>>,
    /// Whether the graph is free of cycles.
    pub cycles: Result<(), String>,
    /// The outputs that each component reads from. A component that is not listed reads nothing.
    pub inputs: ComponentMap<Vec<OutputId>>,
    /// The unit tests, each with its inputs resolved, in the order in which they are written down.
    pub tests: Vec<Result<D::ResolvedTest, Vec<String>>>,
}

/// Something that the work outside has to report.
pub enum CompileEvent<D: Domain> {
    /// The names of the components were checked.
    Names(Result<(), Vec<String>>),
    /// The expanded configuration was checked.
    Checked(Checks),
    /// The graph was built, or could not be built.
    Graph(Result<GraphReport<D>, Vec<String>>),
    /// Acknowledgements were propagated through the configuration that the state holds.
    Acknowledged(Result<(), Vec<String>>),
    /// The warnings on the configuration were collected.
    Warnings(Vec<String>),
}

/// How far a compilation has come.
pub enum CompileState<D: Domain> {
    /// The names of the components have to be checked; see [`names_to_check`].
    Naming { builder: ConfigBuilder<D> },
    /// The expanded configuration has to be checked.
    Checking { builder: ConfigBuilder<D>, errors: Vec<String> },
    /// The graph has to be built; see [`all_sources`] and [`all_sinks`].
    Graphing { builder: ConfigBuilder<D>, errors: Vec<String> },
    /// Acknowledgements have to be propagated through the configuration.
    Acknowledging { config: Config<D> },
    /// The warnings on the configuration have to be collected.
    Warning { config: Config<D> },
    /// The compilation is over.
    Done { result: Result<(Config<D>, Vec<String>), Vec<String>> },
}

pub enum CompileStateView<D: Domain> {
    Naming { builder: ConfigBuilderView<D> },
    Checking { builder: ConfigBuilderView<D>, errors: Seq<String> },
    Graphing { builder: ConfigBuilderView<D>, errors: Seq<String> },
    Acknowledging { config: ConfigView<D> },
    Warning { config: ConfigView<D> },
    Done { result: Result<(ConfigView<D>, Seq<String>), Seq<String>> },
}

impl<D: Domain> View for CompileState<D> {
    type V = CompileStateView<D>;

    open spec fn view(&self) -> CompileStateView<D> {
        match self {
            CompileState::Naming { builder } => CompileStateView::Naming { builder: builder@ },
            CompileState::Checking { builder, errors } => CompileStateView::Checking {
                builder: builder@,
                errors: errors@,
            },
            CompileState::Graphing { builder, errors } => CompileStateView::Graphing {
                builder: builder@,
                errors: errors@,
            },
            CompileState::Acknowledging { config } => CompileStateView::Acknowledging {
                config: config@,
            },
            CompileState::Warning { config } => CompileStateView::Warning { config: config@ },
            CompileState::Done { result } => CompileStateView::Done {
                result: match result {
                    Ok(done) => Ok((done.0@, done.1@)),
                    Err(errors) => Err(errors@),
                },
            },
        }
    }
}

// ---------------------------------------------------------------------------------------------
// What follows from a report.
// ---------------------------------------------------------------------------------------------

/// The errors of a check.
pub open spec fn errors_of(result: Result<(), Vec<String>>) -> Seq<String> {
    match result {
        Ok(_) => Seq::empty(),
        Err(errors) => errors@,
    }
}

/// The errors of the four checks.
pub open spec fn check_errors(checks: Checks) -> Seq<String> {
    errors_of(checks.shape) + errors_of(checks.resources) + errors_of(checks.outputs) + errors_of(
        checks.alpha,
    )
}

/// The errors of a built graph: of its types, and then of its cycles.
pub open spec fn graph_errors<D: Domain>(report: GraphReport<D>) -> Seq<String> {
    errors_of(report.typecheck) + match report.cycles {
        Ok(_) => Seq::empty(),
        Err(error) => seq![error],
    }
}

/// The tests that could be resolved.
pub open spec fn resolved_tests<T>(tests: Seq<Result<T, Vec<String>>>) -> Seq<T>
    decreases tests.len(),
{
    if tests.len() == 0 {
        Seq::empty()
    } else {
        match tests.last() {
            Ok(test) => resolved_tests(tests.drop_last()).push(test),
            Err(_) => resolved_tests(tests.drop_last()),
        }
    }
}

/// The errors of the tests that could not be resolved.
pub open spec fn test_errors<T>(tests: Seq<Result<T, Vec<String>>>) -> Seq<String>
    decreases tests.len(),
{
    if tests.len() == 0 {
        Seq::empty()
    } else {
        match tests.last() {
            Ok(_) => test_errors(tests.drop_last()),
            Err(errors) => test_errors(tests.drop_last()) + errors@,
        }
    }
}

/// The outputs that a component reads from.
pub open spec fn inputs_for(inputs: Seq<(Seq<char>, Vec<OutputId>)>, key: Seq<char>) -> Seq<
    OutputIdView,
> {
    match lookup(inputs, key) {
        Some(ids) => views(ids@),
        None => Seq::empty(),
    }
}

/// The sinks, each reading from the outputs that the graph gives for it.
pub open spec fn resolved_sinks<D: Domain>(
    sinks: Seq<(Seq<char>, SinkView<Seq<char>, D>)>,
    inputs: Seq<(Seq<char>, Vec<OutputId>)>,
) -> Seq<(Seq<char>, SinkView<OutputIdView, D>)> {
    sinks.map_values(
        |e: (Seq<char>, SinkView<Seq<char>, D>)| -> (Seq<char>, SinkView<OutputIdView, D>)
            { (e.0, SinkView { inputs: inputs_for(inputs, e.0), inner: e.1.inner }) },
    )
}

/// The transforms, each reading from the outputs that the graph gives for it.
pub open spec fn resolved_transforms<D: Domain>(
    transforms: Seq<(Seq<char>, TransformView<Seq<char>, D>)>,
    inputs: Seq<(Seq<char>, Vec<OutputId>)>,
) -> Seq<(Seq<char>, TransformView<OutputIdView, D>)> {
    transforms.map_values(
        |e: (Seq<char>, TransformView<Seq<char>, D>)| -> (
            Seq<char>,
            TransformView<OutputIdView, D>,
        )
            {
                (
                    e.0,
                    TransformView {
                        inputs: inputs_for(inputs, e.0),
                        component_name: e.1.component_name,
                        ports: e.1.ports,
                        inner: e.1.inner,
                    },
                )
            },
    )
}

/// The enrichment tables, each reading from the outputs that the graph gives for it.
pub open spec fn resolved_tables<D: Domain>(
    tables: Seq<(Seq<char>, TableView<Seq<char>, D>)>,
    inputs: Seq<(Seq<char>, Vec<OutputId>)>,
) -> Seq<(Seq<char>, TableView<OutputIdView, D>)> {
    tables.map_values(
        |e: (Seq<char>, TableView<Seq<char>, D>)| -> (Seq<char>, TableView<OutputIdView, D>)
            {
                (
                    e.0,
                    TableView {
                        inputs: inputs_for(inputs, e.0),
                        sink: e.1.sink,
                        source: e.1.source,
                        inner: e.1.inner,
                    },
                )
            },
    )
}

/// The configuration that comes out: every component reads from the outputs that the graph gives
/// for it, the tests are the resolved ones, and everything else is as it was written down.
pub open spec fn resolved_config<D: Domain>(
    builder: ConfigBuilderView<D>,
    report: GraphReport<D>,
) -> ConfigView<D> {
    ConfigView {
        global: builder.global,
        api: builder.api,
        schema: builder.schema,
        healthchecks: builder.healthchecks,
        enrichment_tables: resolved_tables(builder.enrichment_tables, report.inputs@),
        sources: builder.sources,
        sinks: resolved_sinks(builder.sinks, report.inputs@),
        transforms: resolved_transforms(builder.transforms, report.inputs@),
        tests: resolved_tests(report.tests@),
        secret: builder.secret,
        graceful_shutdown_duration: builder.graceful_shutdown_duration,
    }
}

/// What follows once the graph is there.
pub open spec fn after_graph<D: Domain>(
    builder: ConfigBuilderView<D>,
    errors: Seq<String>,
    graph: Result<GraphReport<D>, Vec<String>>,
) -> CompileStateView<D> {
    match graph {
        Err(more) => CompileStateView::Done { result: Err(errors + more@) },
        Ok(report) => if test_errors(report.tests@).len() > 0 {
            CompileStateView::Done { result: Err(test_errors(report.tests@)) }
        } else if (errors + graph_errors(report)).len() > 0 {
            CompileStateView::Done { result: Err(errors + graph_errors(report)) }
        } else {
            CompileStateView::Acknowledging { config: resolved_config(builder, report) }
        },
    }
}

/// What follows from a report. One that was not asked for changes nothing.
pub open spec fn compile_next<D: Domain>(
    state: CompileStateView<D>,
    event: CompileEvent<D>,
) -> CompileStateView<D> {
    match (state, event) {
        (CompileStateView::Naming { builder }, CompileEvent::Names(names)) =>
            CompileStateView::Checking {
            builder: expanded_config(builder),
            errors: errors_of(names),
        },
        (CompileStateView::Checking { builder, errors }, CompileEvent::Checked(checks)) =>
            CompileStateView::Graphing { builder, errors: errors + check_errors(checks) },
        (CompileStateView::Graphing { builder, errors }, CompileEvent::Graph(graph)) =>
            after_graph(builder, errors, graph),
        (CompileStateView::Acknowledging { config }, CompileEvent::Acknowledged(result)) =>
            match result {
            Ok(_) => CompileStateView::Warning { config },
            Err(errors) => CompileStateView::Done { result: Err(errors@) },
        },
        (CompileStateView::Warning { config }, CompileEvent::Warnings(warnings)) =>
            CompileStateView::Done { result: Ok((config, warnings@)) },
        _ => state,
    }
}

/// Appends the errors of a check.
fn extend_errors(errors: &mut Vec<String>, result: Result<(), Vec<String>>)
    ensures
        final(errors)@ == old(errors)@ + errors_of(result),
{
    match result {
        Ok(_) => {
            assert(errors@ =~= errors@ + errors_of(result));
        },
        Err(more) => {
            let mut more = more;
            errors.append(&mut more);
        },
    }
}

/// The outputs that a component reads from.
fn copy_inputs(inputs: &ComponentMap<Vec<OutputId>>, key: &String) -> (ids: Vec<OutputId>)
    ensures
        views(ids@) == inputs_for(inputs@, key@),
{
    match inputs.get(key.as_str()) {
        Some(ids) => clone_ids(ids),
        None => {
            let ids: Vec<OutputId> = Vec::new();
            assert(views(ids@) =~= Seq::empty());
            ids
        },
    }
}

/// Gives each sink the outputs that it reads from.
fn resolve_sinks<D: Domain>(
    sinks: ComponentMap<SinkOuter<String, D>>,
    inputs: &ComponentMap<Vec<OutputId>>,
) -> (resolved: ComponentMap<SinkOuter<OutputId, D>>)
    ensures
        viewed(resolved@) == resolved_sinks(viewed(sinks@), inputs@),
{
    let ghost all = sinks@;
    let entries = sinks.into_entries();
    let ghost list = entries@;
    let mut done: Vec<(String, SinkOuter<OutputId, D>)> = Vec::new();
    for entry in it: entries
        invariant
            it.seq() == list,
            pairs(list) == all,
            done@.len() == it.index(),
            forall|j: int|
                0 <= j < done@.len() ==> (#[trigger] done@[j]).0@ == all[j].0 && (
                    done@[j].0@,
                    done@[j].1@,
                ) == resolved_sinks(viewed(all), inputs@)[j],
    {
        proof {
            let i = it.index() as int;
            assert(pairs(list)[i] == (list[i].0@, list[i].1));
        }
        let (key, sink) = entry;
        let ids = copy_inputs(inputs, &key);
        done.push((key, sink.with_inputs(ids)));
    }
    proof {
        assert(pairs(list).len() == list.len());
        lemma_rekeyed(all, done@);
    }
    let resolved = ComponentMap::from_entries(done);
    assert(viewed(resolved@) =~= resolved_sinks(viewed(sinks@), inputs@));
    resolved
}

/// Gives each transform the outputs that it reads from.
fn resolve_transforms<D: Domain>(
    transforms: ComponentMap<TransformOuter<String, D>>,
    inputs: &ComponentMap<Vec<OutputId>>,
) -> (resolved: ComponentMap<TransformOuter<OutputId, D>>)
    ensures
        viewed(resolved@) == resolved_transforms(viewed(transforms@), inputs@),
{
    let ghost all = transforms@;
    let entries = transforms.into_entries();
    let ghost list = entries@;
    let mut done: Vec<(String, TransformOuter<OutputId, D>)> = Vec::new();
    for entry in it: entries
        invariant
            it.seq() == list,
            pairs(list) == all,
            done@.len() == it.index(),
            forall|j: int|
                0 <= j < done@.len() ==> (#[trigger] done@[j]).0@ == all[j].0 && (
                    done@[j].0@,
                    done@[j].1@,
                ) == resolved_transforms(viewed(all), inputs@)[j],
    {
        proof {
            let i = it.index() as int;
            assert(pairs(list)[i] == (list[i].0@, list[i].1));
        }
        let (key, transform) = entry;
        let ids = copy_inputs(inputs, &key);
        done.push((key, transform.with_inputs(ids)));
    }
    proof {
        assert(pairs(list).len() == list.len());
        lemma_rekeyed(all, done@);
    }
    let resolved = ComponentMap::from_entries(done);
    assert(viewed(resolved@) =~= resolved_transforms(viewed(transforms@), inputs@));
    resolved
}

/// Gives each enrichment table the outputs that it reads from.
fn resolve_tables<D: Domain>(
    tables: ComponentMap<EnrichmentTableOuter<String, D>>,
    inputs: &ComponentMap<Vec<OutputId>>,
) -> (resolved: ComponentMap<EnrichmentTableOuter<OutputId, D>>)
    ensures
        viewed(resolved@) == resolved_tables(viewed(tables@), inputs@),
{
    let ghost all = tables@;
    let entries = tables.into_entries();
    let ghost list = entries@;
    let mut done: Vec<(String, EnrichmentTableOuter<OutputId, D>)> = Vec::new();
    for entry in it: entries
        invariant
            it.seq() == list,
            pairs(list) == all,
            done@.len() == it.index(),
            forall|j: int|
                0 <= j < done@.len() ==> (#[trigger] done@[j]).0@ == all[j].0 && (
                    done@[j].0@,
                    done@[j].1@,
                ) == resolved_tables(viewed(all), inputs@)[j],
    {
        proof {
            let i = it.index() as int;
            assert(pairs(list)[i] == (list[i].0@, list[i].1));
        }
        let (key, table) = entry;
        let ids = copy_inputs(inputs, &key);
        done.push((key, table.with_inputs(ids)));
    }
    proof {
        assert(pairs(list).len() == list.len());
        lemma_rekeyed(all, done@);
    }
    let resolved = ComponentMap::from_entries(done);
    assert(viewed(resolved@) =~= resolved_tables(viewed(tables@), inputs@));
    resolved
}

/// Parts the tests that could be resolved from the errors of the others.
fn partition_tests<T>(tests: Vec<Result<T, Vec<String>>>) -> (parts: (Vec<T>, Vec<String>))
    ensures
        parts.0@ == resolved_tests(tests@),
        parts.1@ == test_errors(tests@),
{
    let ghost all = tests@;
    let mut resolved: Vec<T> = Vec::new();
    let mut errors: Vec<String> = Vec::new();
    assert(all.take(0).len() == 0);
    for result in it: tests
        invariant
            it.seq() == all,
            resolved@ == resolved_tests(all.take(it.index())),
            errors@ == test_errors(all.take(it.index())),
    {
        proof {
            let i = it.index() as int;
            assert(all.take(i + 1).drop_last() =~= all.take(i));
            assert(all.take(i + 1).last() == result);
        }
        match result {
            Ok(test) => {
                resolved.push(test);
            },
            Err(more) => {
                let mut more = more;
                errors.append(&mut more);
            },
        }
    }
    assert(all.take(all.len() as int) =~= all);
    (resolved, errors)
}

/// What follows once the graph is there.
fn resolve<D: Domain>(
    builder: ConfigBuilder<D>,
    errors: Vec<String>,
    graph: Result<GraphReport<D>, Vec<String>>,
) -> (next: CompileState<D>)
    ensures
        next@ == after_graph(builder@, errors@, graph),
{
    let mut errors = errors;
    match graph {
        Err(more) => {
            let mut more = more;
            errors.append(&mut more);
            CompileState::Done { result: Err(errors) }
        },
        Ok(report) => {
            let ghost given = report;
            let ghost before = errors@;
            let GraphReport { typecheck, cycles, inputs, tests } = report;
            extend_errors(&mut errors, typecheck);
            if let Err(error) = cycles {
                errors.push(error);
            }
            assert(errors@ =~= before + graph_errors(given));
            let ConfigBuilder {
                global,
                api,
                schema,
                healthchecks,
                enrichment_tables,
                sources,
                sinks,
                transforms,
                tests: _,
                provider: _,
                secret,
                graceful_shutdown_duration,
                allow_empty: _,
            } = builder;
            let (tests, failed) = partition_tests(tests);
            if failed.len() > 0 {
                return CompileState::Done { result: Err(failed) };
            }
            if errors.len() > 0 {
                return CompileState::Done { result: Err(errors) };
            }
            let config = Config {
                global,
                api,
                schema,
                healthchecks,
                enrichment_tables: resolve_tables(enrichment_tables, &inputs),
                sources,
                sinks: resolve_sinks(sinks, &inputs),
                transforms: resolve_transforms(transforms, &inputs),
                tests,
                secret,
                graceful_shutdown_duration,
            };
            CompileState::Acknowledging { config }
        },
    }
}

/// Compiles a configuration, one report at a time. A compilation starts in
/// [`CompileState::Naming`], and each state says which report it waits for.
pub fn compile<D: Domain>(state: CompileState<D>, event: CompileEvent<D>) -> (next: CompileState<D>)
    ensures
        next@ == compile_next(state@, event),
{
    match (state, event) {
        (CompileState::Naming { builder }, CompileEvent::Names(names)) => {
            let mut builder = builder;
            let mut errors: Vec<String> = Vec::new();
            extend_errors(&mut errors, names);
            expand_globs(&mut builder);
            assert(errors@ =~= errors_of(names));
            CompileState::Checking { builder, errors }
        },
        (CompileState::Checking { builder, errors }, CompileEvent::Checked(checks)) => {
            let mut errors = errors;
            let ghost before = errors@;
            extend_errors(&mut errors, checks.shape);
            extend_errors(&mut errors, checks.resources);
            extend_errors(&mut errors, checks.outputs);
            extend_errors(&mut errors, checks.alpha);
            assert(errors@ =~= before + check_errors(checks));
            CompileState::Graphing { builder, errors }
        },
        (CompileState::Graphing { builder, errors }, CompileEvent::Graph(graph)) => resolve(
            builder,
            errors,
            graph,
        ),
        (CompileState::Acknowledging { config }, CompileEvent::Acknowledged(result)) => {
            match result {
                Ok(_) => CompileState::Warning { config },
                Err(errors) => CompileState::Done { result: Err(errors) },
            }
        },
        (CompileState::Warning { config }, CompileEvent::Warnings(warnings)) => {
            CompileState::Done { result: Ok((config, warnings)) }
        },
        (state, _) => state,
    }
}

// ---------------------------------------------------------------------------------------------
// Laws.
// ---------------------------------------------------------------------------------------------

/// The states of a compilation, one report after the other.
pub open spec fn compile_run<D: Domain>(
    state: CompileStateView<D>,
    events: Seq<CompileEvent<D>>,
) -> CompileStateView<D>
    decreases events.len(),
{
    if events.len() == 0 {
        state
    } else {
        compile_next(compile_run(state, events.drop_last()), events.last())
    }
}

/// The reports up to that on the graph, in turn: the patterns are expanded once the names have been
/// checked, and the errors of the names, of the checks and of the graph come in this order. Where a
/// test cannot be resolved, nothing but the errors of the tests is told.
pub proof fn law_compile_checks<D: Domain>(
    builder: ConfigBuilderView<D>,
    names: Result<(), Vec<String>>,
    checks: Checks,
    graph: Result<GraphReport<D>, Vec<String>>,
)
    ensures
        compile_run(
            CompileStateView::Naming { builder },
            seq![
                CompileEvent::Names(names),
                CompileEvent::Checked(checks),
                CompileEvent::Graph(graph),
            ],
        ) == after_graph(
            expanded_config(builder),
            errors_of(names) + check_errors(checks),
            graph,
        ),
{
    let events = seq![
        CompileEvent::Names(names),
        CompileEvent::Checked(checks),
        CompileEvent::Graph(graph),
    ];
    let start = CompileStateView::Naming { builder };
    let at = |i: int| compile_run(start, events.take(i));
    assert forall|i: int| 0 <= i < 3 implies #[trigger] at(i + 1) == compile_next(
        at(i),
        events[i],
    ) by {
        assert(events.take(i + 1).drop_last() =~= events.take(i));
    }
    assert(events.take(3) =~= events);
    assert(at(0) == start);
    assert(at(0int + 1) is Checking);
    assert(at(1int + 1) is Graphing);
    assert(at(2int + 1) == compile_next(at(2), events[2]));
}

/// The reports on a configuration that acknowledgements were propagated through: where that failed
/// its errors are told, else the configuration is handed out with its warnings.
pub proof fn law_compile_finishes<D: Domain>(
    config: ConfigView<D>,
    acknowledged: Result<(), Vec<String>>,
    warnings: Vec<String>,
)
    ensures
        compile_run(
            CompileStateView::Acknowledging { config },
            seq![CompileEvent::Acknowledged(acknowledged), CompileEvent::Warnings(warnings)],
        ) == (CompileStateView::Done {
            result: match acknowledged {
                Ok(_) => Ok((config, warnings@)),
                Err(errors) => Err(errors@),
            },
        }),
{
    let events = seq![CompileEvent::Acknowledged(acknowledged), CompileEvent::Warnings(warnings)];
    let start = CompileStateView::Acknowledging { config };
    let at = |i: int| compile_run(start, events.take(i));
    assert forall|i: int| 0 <= i < 2 implies #[trigger] at(i + 1) == compile_next(
        at(i),
        events[i],
    ) by {
        assert(events.take(i + 1).drop_last() =~= events.take(i));
    }
    assert(events.take(2) =~= events);
    assert(at(0) == start);
    assert(at(0int + 1) == compile_next(at(0), events[0]));
    assert(at(1int + 1) == compile_next(at(1), events[1]));
}

/// A configuration gets past its checks exactly where nothing was reported against it; it then has
/// the inputs and the tests that the graph gave.
pub proof fn law_compile_succeeds<D: Domain>(
    builder: ConfigBuilderView<D>,
    errors: Seq<String>,
    graph: Result<GraphReport<D>, Vec<String>>,
)
    ensures
        after_graph(builder, errors, graph) is Acknowledging <==> {
            &&& errors.len() == 0
            &&& graph matches Ok(report) && graph_errors(report).len() == 0 && test_errors(
                report.tests@,
            ).len() == 0
        },
        after_graph(builder, errors, graph) is Acknowledging || after_graph(
            builder,
            errors,
            graph,
        ) is Done,
        after_graph(builder, errors, graph) is Acknowledging ==> after_graph(
            builder,
            errors,
            graph,
        ) == (CompileStateView::Acknowledging {
            config: resolved_config(builder, graph->Ok_0),
        }),
{
}

/// A compilation that is over stays over.
pub proof fn law_compile_ends<D: Domain>(state: CompileStateView<D>, events: Seq<CompileEvent<D>>)
    requires
        state is Done,
    ensures
        compile_run(state, events) == state,
    decreases events.len(),
{
    if events.len() > 0 {
        law_compile_ends(state, events.drop_last());
    }
}

/// With one result for each unit test, and a word on each that could not be resolved, a
/// configuration comes of a graph only where every test was resolved; and it has as many tests as
/// were written down, in the same order.
pub proof fn law_tests_kept<D: Domain>(
    builder: ConfigBuilderView<D>,
    errors: Seq<String>,
    report: GraphReport<D>,
)
    requires
        report.tests@.len() == builder.tests.len(),
        forall|i: int|
            0 <= i < report.tests@.len() ==> (#[trigger] report.tests@[i] matches Err(more)
                ==> more@.len() > 0),
        after_graph(builder, errors, Ok(report)) is Acknowledging,
    ensures
        ({
            let config = after_graph(builder, errors, Ok(report))->Acknowledging_config;
            &&& config.tests.len() == builder.tests.len()
            &&& forall|i: int|
                0 <= i < config.tests.len() ==> #[trigger] report.tests@[i] == Ok::<
                    D::ResolvedTest,
                    Vec<String>,
                >(config.tests[i])
        }),
{
    lemma_all_resolved(report.tests@);
}

proof fn lemma_all_resolved<T>(tests: Seq<Result<T, Vec<String>>>)
    requires
        test_errors(tests).len() == 0,
        forall|i: int|
            0 <= i < tests.len() ==> (#[trigger] tests[i] matches Err(more) ==> more@.len() > 0),
    ensures
        resolved_tests(tests).len() == tests.len(),
        forall|i: int|
            0 <= i < tests.len() ==> #[trigger] tests[i] == Ok::<T, Vec<String>>(
                resolved_tests(tests)[i],
            ),
    decreases tests.len(),
{
    if tests.len() > 0 {
        let front = tests.drop_last();
        assert forall|i: int| 0 <= i < front.len() implies (#[trigger] front[i] matches Err(more)
            ==> more@.len() > 0) by {
            assert(front[i] == tests[i]);
        }
        assert(tests[tests.len() - 1] == tests.last());
        lemma_all_resolved(front);
        assert forall|i: int| 0 <= i < tests.len() implies #[trigger] tests[i] == Ok::<
            T,
            Vec<String>,
        >(resolved_tests(tests)[i]) by {
            if i < front.len() {
                assert(front[i] == tests[i]);
            }
        }
    }
}

/// Compiling keeps every component: the names of the sources, transforms, sinks and tables, and
/// their order, are those that were written down.
pub proof fn law_components_kept<D: Domain>(
    builder: ConfigBuilderView<D>,
    report: GraphReport<D>,
)
    ensures
        ({
            let config = resolved_config(expanded_config(builder), report);
            &&& config.sources == builder.sources
            &&& keys_of(config.transforms) == keys_of(builder.transforms)
            &&& keys_of(config.sinks) == keys_of(builder.sinks)
            &&& keys_of(config.enrichment_tables) == keys_of(builder.enrichment_tables)
        }),
{
    let config = resolved_config(expanded_config(builder), report);
    assert(keys_of(config.transforms) =~= keys_of(builder.transforms));
    assert(keys_of(config.sinks) =~= keys_of(builder.sinks));
    assert(keys_of(config.enrichment_tables) =~= keys_of(builder.enrichment_tables));
}

// ---------------------------------------------------------------------------------------------
// What holds of a compilation as a whole.
// ---------------------------------------------------------------------------------------------

/// A whole compilation: the state after each report, in turn.
pub open spec fn is_compilation<D: Domain>(
    states: Seq<CompileState<D>>,
    builder: ConfigBuilder<D>,
    names: Result<(), Vec<String>>,
    checks: Checks,
    graph: Result<GraphReport<D>, Vec<String>>,
    acknowledged: Result<(), Vec<String>>,
    warnings: Vec<String>,
) -> bool {
    &&& states.len() == 6
    &&& states[0] == (CompileState::Naming { builder })
    &&& call_ensures(compile::<D>, (states[0], CompileEvent::Names(names)), states[1])
    &&& call_ensures(compile::<D>, (states[1], CompileEvent::Checked(checks)), states[2])
    &&& call_ensures(compile::<D>, (states[2], CompileEvent::Graph(graph)), states[3])
    &&& call_ensures(compile::<D>, (states[3], CompileEvent::Acknowledged(acknowledged)), states[4])
    &&& call_ensures(compile::<D>, (states[4], CompileEvent::Warnings(warnings)), states[5])
}

/// What a report says is wrong.
pub open spec fn said(result: Result<(), Vec<String>>) -> Seq<String> {
    match result {
        Ok(_) => seq![],
        Err(errors) => errors@,
    }
}

/// What is told of a list of tests: all that is said of each test that could not be resolved.
pub open spec fn tells_of_tests<T>(
    tests: Seq<Result<T, Vec<String>>>,
    i: int,
    k: int,
    message: String,
) -> bool {
    &&& 0 <= i < tests.len()
    &&& tests[i] matches Err(errors) && 0 <= k < errors@.len() && errors@[k] == message
}

/// The outputs that a component reads from are those that the graph lists for its name, one by one:
/// the same component, and the same port.
pub open spec fn reads_as_listed(
    inputs: Seq<OutputIdView>,
    listed: Seq<(Seq<char>, Vec<OutputId>)>,
    key: Seq<char>,
) -> bool {
    match lookup(listed, key) {
        Some(ids) => inputs.len() == ids@.len() && forall|k: int|
            0 <= k < ids@.len() ==> (#[trigger] inputs[k]).component == ids@[k].component@
                && inputs[k].port == opt_text(ids@[k].port),
        None => inputs.len() == 0,
    }
}

/// A configuration that comes out of a compilation holds what was written down: every source as it
/// is, and every transform, sink and table as it is but for its inputs, which are the outputs that
/// the graph lists for it, with their ports, in order. The warnings are those that were collected.
pub proof fn law_compiled_config<D: Domain>(
    states: Seq<CompileState<D>>,
    builder: ConfigBuilder<D>,
    names: Result<(), Vec<String>>,
    checks: Checks,
    graph: Result<GraphReport<D>, Vec<String>>,
    acknowledged: Result<(), Vec<String>>,
    warnings: Vec<String>,
    config: Config<D>,
    told: Vec<String>,
)
    requires
        is_compilation(states, builder, names, checks, graph, acknowledged, warnings),
        states[5] == (CompileState::Done { result: Ok((config, told)) }),
    ensures
        told@ == warnings@,
        graph matches Ok(report) && {
            &&& config@.global == builder@.global
            &&& config@.api == builder@.api
            &&& config@.schema == builder@.schema
            &&& config@.healthchecks == builder@.healthchecks
            &&& config@.secret == builder@.secret
            &&& config@.graceful_shutdown_duration == builder@.graceful_shutdown_duration
            &&& config@.sources == builder@.sources
            &&& config@.tests == resolved_tests(report.tests@)
            &&& config@.transforms.len() == builder@.transforms.len()
            &&& forall|i: int|
                0 <= i < config@.transforms.len() ==> {
                    let after = #[trigger] config@.transforms[i];
                    let before = builder@.transforms[i];
                    &&& after.0 == before.0
                    &&& after.1.component_name == before.1.component_name
                    &&& after.1.ports == before.1.ports
                    &&& after.1.inner == before.1.inner
                    &&& reads_as_listed(after.1.inputs, report.inputs@, before.0)
                }
            &&& config@.sinks.len() == builder@.sinks.len()
            &&& forall|i: int|
                0 <= i < config@.sinks.len() ==> {
                    let after = #[trigger] config@.sinks[i];
                    let before = builder@.sinks[i];
                    &&& after.0 == before.0
                    &&& after.1.inner == before.1.inner
                    &&& reads_as_listed(after.1.inputs, report.inputs@, before.0)
                }
            &&& config@.enrichment_tables.len() == builder@.enrichment_tables.len()
            &&& forall|i: int|
                0 <= i < config@.enrichment_tables.len() ==> {
                    let after = #[trigger] config@.enrichment_tables[i];
                    let before = builder@.enrichment_tables[i];
                    &&& after.0 == before.0
                    &&& after.1.sink == before.1.sink
                    &&& after.1.source == before.1.source
                    &&& after.1.inner == before.1.inner
                    &&& reads_as_listed(after.1.inputs, report.inputs@, before.0)
                }
        },
{
    lemma_states(states, builder, names, checks, graph, acknowledged, warnings);
    let report = graph->Ok_0;
    assert forall|key: Seq<char>| reads_as_listed(
        #[trigger] inputs_for(report.inputs@, key),
        report.inputs@,
        key,
    ) by {
        if let Some(ids) = lookup(report.inputs@, key) {
            let inputs = inputs_for(report.inputs@, key);
            assert forall|k: int| 0 <= k < ids@.len() implies (#[trigger] inputs[k]).component
                == ids@[k].component@ && inputs[k].port == opt_text(ids@[k].port) by {
                assert(inputs[k] == ids@[k]@);
            }
        }
    }
    let before = expanded_config(builder@);
    assert(config@ == resolved_config(before, report));
    assert forall|i: int| 0 <= i < before.transforms.len() implies ({
        let after = #[trigger] config@.transforms[i];
        &&& after.0 == builder@.transforms[i].0
        &&& after.1.component_name == builder@.transforms[i].1.component_name
        &&& after.1.ports == builder@.transforms[i].1.ports
        &&& after.1.inner == builder@.transforms[i].1.inner
        &&& after.1.inputs == inputs_for(report.inputs@, builder@.transforms[i].0)
    }) by {
        assert(before.transforms[i].0 == builder@.transforms[i].0);
    }
    assert forall|i: int| 0 <= i < before.sinks.len() implies ({
        let after = #[trigger] config@.sinks[i];
        &&& after.0 == builder@.sinks[i].0
        &&& after.1.inner == builder@.sinks[i].1.inner
        &&& after.1.inputs == inputs_for(report.inputs@, builder@.sinks[i].0)
    }) by {
        assert(before.sinks[i].0 == builder@.sinks[i].0);
    }
}

proof fn lemma_states<D: Domain>(
    states: Seq<CompileState<D>>,
    builder: ConfigBuilder<D>,
    names: Result<(), Vec<String>>,
    checks: Checks,
    graph: Result<GraphReport<D>, Vec<String>>,
    acknowledged: Result<(), Vec<String>>,
    warnings: Vec<String>,
)
    requires
        is_compilation(states, builder, names, checks, graph, acknowledged, warnings),
    ensures
        ({
            let at = after_graph(
                expanded_config(builder@),
                errors_of(names) + check_errors(checks),
                graph,
            );
            states[5]@ == (match at {
                CompileStateView::Acknowledging { config } => CompileStateView::Done {
                    result: match acknowledged {
                        Ok(_) => Ok((config, warnings@)),
                        Err(errors) => Err(errors@),
                    },
                },
                _ => at,
            })
        }),
{
    assert(states[1]@ == compile_next(states[0]@, CompileEvent::Names(names)));
    assert(states[2]@ == compile_next(states[1]@, CompileEvent::Checked(checks)));
    assert(states[3]@ == compile_next(states[2]@, CompileEvent::Graph(graph)));
    assert(states[4]@ == compile_next(states[3]@, CompileEvent::Acknowledged(acknowledged)));
    assert(states[5]@ == compile_next(states[4]@, CompileEvent::Warnings(warnings)));
}

proof fn lemma_tests_told<T>(tests: Seq<Result<T, Vec<String>>>, message: String)
    ensures
        test_errors(tests).contains(message) <==> exists|i: int, k: int| #[trigger]
            tells_of_tests(tests, i, k, message),
    decreases tests.len(),
{
    if tests.len() > 0 {
        let front = tests.drop_last();
        let last = tests.len() - 1;
        lemma_tests_told(front, message);
        assert(tests[last] == tests.last());
        assert forall|i: int, k: int| #[trigger]
            tells_of_tests(front, i, k, message) implies tells_of_tests(tests, i, k, message) by {}
        assert forall|i: int, k: int|
            i != last && #[trigger] tells_of_tests(tests, i, k, message) implies tells_of_tests(
            front,
            i,
            k,
            message,
        ) by {}
        let head = test_errors(front);
        let all = test_errors(tests);
        if head.contains(message) {
            let (i, k) = choose|i: int, k: int| #[trigger] tells_of_tests(front, i, k, message);
            assert(tells_of_tests(tests, i, k, message));
            assert(all[head.index_of(message)] == message);
        }
        match tests.last() {
            Ok(_) => {},
            Err(errors) => {
                if all.contains(message) && !head.contains(message) {
                    let at = all.index_of(message);
                    if at < head.len() {
                        assert(head[at] == message);
                    }
                    assert(tells_of_tests(tests, last, at - head.len(), message));
                }
                if exists|k: int| #[trigger] tells_of_tests(tests, last, k, message) {
                    let k = choose|k: int| #[trigger] tells_of_tests(tests, last, k, message);
                    assert(all[head.len() + k] == message);
                }
            },
        }
        if exists|i: int, k: int| #[trigger] tells_of_tests(tests, i, k, message) {
            let (i, k) = choose|i: int, k: int| #[trigger] tells_of_tests(tests, i, k, message);
            if i < last {
                assert(tells_of_tests(front, i, k, message));
            }
        }
    }
}

/// How a compilation ends. Where the graph could not be built, the errors of the names, of the four
/// checks and of the graph are told. Where a test could not be resolved, the errors of the tests
/// are, and nothing else. Where anything else is wrong, the errors of the names, of the checks, of
/// the types and of the cycles are, in this order; and where nothing is, those of the
/// acknowledgements. Only where there is none of these does a configuration come out.
pub proof fn law_compile_outcome<D: Domain>(
    states: Seq<CompileState<D>>,
    builder: ConfigBuilder<D>,
    names: Result<(), Vec<String>>,
    checks: Checks,
    graph: Result<GraphReport<D>, Vec<String>>,
    acknowledged: Result<(), Vec<String>>,
    warnings: Vec<String>,
    result: Result<(Config<D>, Vec<String>), Vec<String>>,
    message: String,
)
    requires
        is_compilation(states, builder, names, checks, graph, acknowledged, warnings),
        states[5] == (CompileState::Done { result }),
    ensures
        ({
            let before = said(names) + said(checks.shape) + said(checks.resources) + said(
                checks.outputs,
            ) + said(checks.alpha);
            match graph {
                Err(more) => result matches Err(errors) && errors@ == before + more@,
                Ok(report) => {
                    let graphed = before + said(report.typecheck) + match report.cycles {
                        Ok(_) => seq![],
                        Err(cycle) => seq![cycle],
                    };
                    let of_tests = exists|i: int|
                        0 <= i < report.tests@.len() && (#[trigger] report.tests@[i] matches Err(
                            wrong,
                        ) && wrong@.len() > 0);
                    if of_tests {
                        result matches Err(errors) && (errors@.contains(message) <==> exists|
                            i: int,
                            k: int,
                        | #[trigger]
                            tells_of_tests(report.tests@, i, k, message))
                    } else if graphed.len() > 0 {
                        result matches Err(errors) && errors@ == graphed
                    } else {
                        match acknowledged {
                            Ok(_) => result is Ok,
                            Err(refused) => result matches Err(errors) && errors@ == refused@,
                        }
                    }
                },
            }
        }),
{
    lemma_states(states, builder, names, checks, graph, acknowledged, warnings);
    let before = said(names) + said(checks.shape) + said(checks.resources) + said(checks.outputs)
        + said(checks.alpha);
    assert(errors_of(names) + check_errors(checks) =~= before);
    if let Ok(report) = graph {
        let cycle = match report.cycles {
            Ok(_) => Seq::<String>::empty(),
            Err(cycle) => seq![cycle],
        };
        assert(before + graph_errors(report) =~= before + said(report.typecheck) + cycle);
        lemma_tests_told(report.tests@, message);
        lemma_test_errors_some(report.tests@);
    }
}

proof fn lemma_test_errors_some<T>(tests: Seq<Result<T, Vec<String>>>)
    ensures
        test_errors(tests).len() > 0 <==> exists|i: int|
            0 <= i < tests.len() && (#[trigger] tests[i] matches Err(wrong) && wrong@.len() > 0),
    decreases tests.len(),
{
    if tests.len() > 0 {
        let front = tests.drop_last();
        let last = tests.len() - 1;
        lemma_test_errors_some(front);
        assert(tests[last] == tests.last());
        if exists|i: int|
            0 <= i < front.len() && (#[trigger] front[i] matches Err(wrong) && wrong@.len() > 0) {
            let i = choose|i: int|
                0 <= i < front.len() && (#[trigger] front[i] matches Err(wrong) && wrong@.len()
                    > 0);
            assert(tests[i] == front[i]);
        }
        if exists|i: int|
            0 <= i < tests.len() && (#[trigger] tests[i] matches Err(wrong) && wrong@.len() > 0) {
            let i = choose|i: int|
                0 <= i < tests.len() && (#[trigger] tests[i] matches Err(wrong) && wrong@.len()
                    > 0);
            if i < last {
                assert(front[i] == tests[i]);
            }
        }
    }
}

/// A list of tests can be resolved part by part: what could be resolved stays, in order, and of the
/// others everything that is said is told, in order.
pub proof fn law_tests_by_parts<T>(
    head: Seq<Result<T, Vec<String>>>,
    tail: Seq<Result<T, Vec<String>>>,
    test: Result<T, Vec<String>>,
)
    ensures
        resolved_tests(head + tail) == resolved_tests(head) + resolved_tests(tail),
        test_errors(head + tail) == test_errors(head) + test_errors(tail),
        match test {
            Ok(resolved) => resolved_tests(seq![test]) == seq![resolved] && test_errors(
                seq![test],
            ).len() == 0,
            Err(errors) => resolved_tests(seq![test]).len() == 0 && test_errors(seq![test])
                == errors@,
        },
    decreases tail.len(),
{
    let one = seq![test];
    assert(one.drop_last() =~= Seq::empty());
    assert(one.last() == test);
    reveal_with_fuel(resolved_tests, 2);
    reveal_with_fuel(test_errors, 2);
    match test {
        Ok(resolved) => {
            assert(resolved_tests(one) =~= seq![resolved]);
        },
        Err(errors) => {
            assert(test_errors(one) =~= errors@);
        },
    }
    if tail.len() > 0 {
        law_tests_by_parts(head, tail.drop_last(), test);
        assert((head + tail).drop_last() =~= head + tail.drop_last());
        assert((head + tail).last() == tail.last());
    } else {
        assert(head + tail =~= head);
    }
    assert(resolved_tests(head + tail) =~= resolved_tests(head) + resolved_tests(tail));
    assert(test_errors(head + tail) =~= test_errors(head) + test_errors(tail));
}

/// The patterns of a configuration are expanded once, before anything but the names is checked; the
/// checks and the graph see the expanded inputs.
pub proof fn law_compile_expands_first<D: Domain>(
    states: Seq<CompileState<D>>,
    builder: ConfigBuilder<D>,
    names: Result<(), Vec<String>>,
    checks: Checks,
    graph: Result<GraphReport<D>, Vec<String>>,
    acknowledged: Result<(), Vec<String>>,
    warnings: Vec<String>,
)
    requires
        is_compilation(states, builder, names, checks, graph, acknowledged, warnings),
    ensures
        states[1] matches CompileState::Checking { builder: now, errors } && now@
            == expanded_config(builder@) && errors@ == said(names),
        states[2] matches CompileState::Graphing { builder: now, errors } && now@
            == expanded_config(builder@) && errors@ == said(names) + said(checks.shape) + said(
            checks.resources,
        ) + said(checks.outputs) + said(checks.alpha),
{
    assert(states[1]@ == compile_next(states[0]@, CompileEvent::Names(names)));
    assert(states[2]@ == compile_next(states[1]@, CompileEvent::Checked(checks)));
    assert(errors_of(names) + check_errors(checks) =~= said(names) + said(checks.shape) + said(
        checks.resources,
    ) + said(checks.outputs) + said(checks.alpha));
}

/// A name is checked exactly where a transform, a source or a sink has it, and as often as they
/// have it.
pub proof fn law_names_are_checked<D: Domain>(
    builder: ConfigBuilder<D>,
    names: Vec<String>,
    name: Seq<char>,
)
    requires
        call_ensures(names_to_check::<D>, (&builder,), names),
    ensures
        names@.len() == builder@.transforms.len() + builder@.sources.len() + builder@.sinks.len(),
        texts(names@).contains(name) <==> {
            ||| exists|i: int|
                0 <= i < builder@.transforms.len() && (#[trigger] builder@.transforms[i]).0 == name
            ||| exists|i: int|
                0 <= i < builder@.sources.len() && (#[trigger] builder@.sources[i]).0 == name
            ||| exists|i: int|
                0 <= i < builder@.sinks.len() && (#[trigger] builder@.sinks[i]).0 == name
        },
{
    let all = texts(names@);
    let transforms = builder@.transforms;
    let sources = builder@.sources;
    let sinks = builder@.sinks;
    assert(all.len() == names@.len());
    if all.contains(name) {
        let k = all.index_of(name);
        if k < transforms.len() {
            assert(transforms[k].0 == name);
        } else if k < transforms.len() + sources.len() {
            assert(sources[k - transforms.len()].0 == name);
        } else {
            assert(sinks[k - transforms.len() - sources.len()].0 == name);
        }
    }
    if exists|i: int| 0 <= i < transforms.len() && (#[trigger] transforms[i]).0 == name {
        let i = choose|i: int| 0 <= i < transforms.len() && (#[trigger] transforms[i]).0 == name;
        assert(all[i] == name);
    }
    if exists|i: int| 0 <= i < sources.len() && (#[trigger] sources[i]).0 == name {
        let i = choose|i: int| 0 <= i < sources.len() && (#[trigger] sources[i]).0 == name;
        assert(all[transforms.len() + i] == name);
    }
    if exists|i: int| 0 <= i < sinks.len() && (#[trigger] sinks[i]).0 == name {
        let i = choose|i: int| 0 <= i < sinks.len() && (#[trigger] sinks[i]).0 == name;
        assert(all[transforms.len() + sources.len() + i] == name);
    }
}

/// A table is fed through a sink of a name.
pub open spec fn is_fed_through<T, D: Domain>(
    tables: Seq<(Seq<char>, TableView<T, D>)>,
    t: int,
    name: Seq<char>,
) -> bool {
    0 <= t < tables.len() && (tables[t].1.sink matches Some(sink) && sink.0 == name)
}

/// A table is read through a source of a name.
pub open spec fn is_read_through<T, D: Domain>(
    tables: Seq<(Seq<char>, TableView<T, D>)>,
    t: int,
    name: Seq<char>,
) -> bool {
    0 <= t < tables.len() && (tables[t].1.source matches Some(source) && source.0 == name)
}

proof fn lemma_table_sinks_filed<T, D: Domain>(
    entries: Seq<(Seq<char>, SinkView<T, D>)>,
    tables: Seq<(Seq<char>, TableView<T, D>)>,
    name: Seq<char>,
)
    requires
        distinct_keys(entries),
    ensures
        forall|t: int|
            #[trigger] is_fed_through(tables, t, name) && (forall|u: int|
                t < u < tables.len() ==> !#[trigger] is_fed_through(tables, u, name)) ==> lookup(
                extended(entries, table_sinks(tables)),
                name,
            ) == Some(
                SinkView::<T, D> { inputs: tables[t].1.inputs, inner: (tables[t].1.sink->0).1 },
            ),
        (forall|t: int| !#[trigger] is_fed_through(tables, t, name)) ==> lookup(
            extended(entries, table_sinks(tables)),
            name,
        ) == lookup(entries, name),
    decreases tables.len(),
{
    if tables.len() > 0 {
        let front = tables.drop_last();
        let last = tables.len() - 1;
        lemma_table_sinks_filed(entries, front, name);
        assert(tables[last] == tables.last());
        assert forall|t: int| t != last implies #[trigger] is_fed_through(tables, t, name)
            == is_fed_through(front, t, name) by {}
        let here = is_fed_through(tables, last, name);
        let so_far = extended(entries, table_sinks(front));
        lemma_extended_distinct(entries, table_sinks(front));
        if let Some(sink) = tables.last().1.sink {
            let view = SinkView::<T, D> { inputs: tables.last().1.inputs, inner: sink.1 };
            let all = table_sinks(tables);
            assert(all.drop_last() =~= table_sinks(front));
            assert(all.last() == (sink.0, view));
            lemma_upsert_lookup(so_far, sink.0, view, name);
        }
        assert forall|t: int|
            #[trigger] is_fed_through(tables, t, name) && (forall|u: int|
                t < u < tables.len() ==> !#[trigger] is_fed_through(tables, u, name))
                implies lookup(extended(entries, table_sinks(tables)), name) == Some(
            SinkView::<T, D> { inputs: tables[t].1.inputs, inner: (tables[t].1.sink->0).1 },
        ) by {
            if t < last {
                assert(is_fed_through(front, t, name));
                assert forall|u: int| t < u < front.len() implies !#[trigger] is_fed_through(
                    front,
                    u,
                    name,
                ) by {
                    assert(!is_fed_through(tables, u, name));
                }
                assert(!here);
            }
        }
        if forall|t: int| !#[trigger] is_fed_through(tables, t, name) {
            assert forall|t: int| !#[trigger] is_fed_through(front, t, name) by {
                assert(!is_fed_through(tables, t, name));
            }
        }
    }
}

proof fn lemma_table_sources_filed<T, D: Domain>(
    entries: Seq<(Seq<char>, SourceOuter<D>)>,
    tables: Seq<(Seq<char>, TableView<T, D>)>,
    name: Seq<char>,
)
    requires
        distinct_keys(entries),
    ensures
        forall|t: int|
            #[trigger] is_read_through(tables, t, name) && (forall|u: int|
                t < u < tables.len() ==> !#[trigger] is_read_through(tables, u, name)) ==> lookup(
                extended(entries, table_sources(tables)),
                name,
            ) == Some((tables[t].1.source->0).1),
        (forall|t: int| !#[trigger] is_read_through(tables, t, name)) ==> lookup(
            extended(entries, table_sources(tables)),
            name,
        ) == lookup(entries, name),
    decreases tables.len(),
{
    if tables.len() > 0 {
        let front = tables.drop_last();
        let last = tables.len() - 1;
        lemma_table_sources_filed(entries, front, name);
        assert(tables[last] == tables.last());
        assert forall|t: int| t != last implies #[trigger] is_read_through(tables, t, name)
            == is_read_through(front, t, name) by {}
        let here = is_read_through(tables, last, name);
        let so_far = extended(entries, table_sources(front));
        lemma_extended_distinct(entries, table_sources(front));
        if let Some(source) = tables.last().1.source {
            let all = table_sources(tables);
            assert(all.drop_last() =~= table_sources(front));
            assert(all.last() == source);
            lemma_upsert_lookup(so_far, source.0, source.1, name);
        }
        assert forall|t: int|
            #[trigger] is_read_through(tables, t, name) && (forall|u: int|
                t < u < tables.len() ==> !#[trigger] is_read_through(tables, u, name))
                implies lookup(extended(entries, table_sources(tables)), name) == Some(
            (tables[t].1.source->0).1,
        ) by {
            if t < last {
                assert(is_read_through(front, t, name));
                assert forall|u: int| t < u < front.len() implies !#[trigger] is_read_through(
                    front,
                    u,
                    name,
                ) by {
                    assert(!is_read_through(tables, u, name));
                }
                assert(!here);
            }
        }
        if forall|t: int| !#[trigger] is_read_through(tables, t, name) {
            assert forall|t: int| !#[trigger] is_read_through(front, t, name) by {
                assert(!is_read_through(tables, t, name));
            }
        }
    }
}

/// Among the sinks that a graph has to know, a name stands for the sink of the last table that is
/// fed through it, reading what the table reads; where there is no such table, for the sink that
/// was written down under it.
pub proof fn law_all_sinks<'a, D: Domain>(
    builder: &'a ConfigBuilder<D>,
    sinks: ComponentMap<SinkRef<'a, String, D>>,
    name: Seq<char>,
)
    requires
        call_ensures(all_sinks::<D>, (builder,), sinks),
        distinct_keys(builder@.sinks),
    ensures
        forall|t: int|
            #[trigger] is_fed_through(builder@.enrichment_tables, t, name) && (forall|u: int|
                t < u < builder@.enrichment_tables.len() ==> !#[trigger] is_fed_through(
                    builder@.enrichment_tables,
                    u,
                    name,
                )) ==> (lookup(viewed(sinks@), name) matches Some(sink) && sink.inputs
                == builder@.enrichment_tables[t].1.inputs && sink.inner == (
            builder@.enrichment_tables[t].1.sink->0).1),
        (forall|t: int| !#[trigger] is_fed_through(builder@.enrichment_tables, t, name)) ==> lookup(
            viewed(sinks@),
            name,
        ) == lookup(builder@.sinks, name),
{
    lemma_table_sinks_filed(builder@.sinks, builder@.enrichment_tables, name);
}

/// Among the sources that a graph has to know, a name stands for the source of the last table that
/// is read through it; where there is no such table, for the source that was written down under it.
pub proof fn law_all_sources<'a, D: Domain>(
    builder: &'a ConfigBuilder<D>,
    sources: ComponentMap<&'a SourceOuter<D>>,
    name: Seq<char>,
)
    requires
        call_ensures(all_sources::<D>, (builder,), sources),
        distinct_keys(builder@.sources),
    ensures
        forall|t: int|
            #[trigger] is_read_through(builder@.enrichment_tables, t, name) && (forall|u: int|
                t < u < builder@.enrichment_tables.len() ==> !#[trigger] is_read_through(
                    builder@.enrichment_tables,
                    u,
                    name,
                )) ==> lookup(lent(sources@), name) == Some(
                (builder@.enrichment_tables[t].1.source->0).1,
            ),
        (forall|t: int| !#[trigger] is_read_through(builder@.enrichment_tables, t, name))
            ==> lookup(lent(sources@), name) == lookup(builder@.sources, name),
{
    lemma_table_sources_filed(builder@.sources, builder@.enrichment_tables, name);
}

} // verus!

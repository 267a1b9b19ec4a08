//! The pieces of a topology, once everything has been built.

use vstd::prelude::*;

use crate::config::{viewed, ComponentKey, Config, ConfigView, OutputIdView};
use crate::keyed::KeyedMap;
use crate::ordered::{
    distinct_keys, has_key, lemma_upsert_distinct, lemma_upsert_has_key, lookup, ComponentMap,
};
use crate::text::texts;
use crate::topology::builder::{
    all_buffered, component_error, fed, law_kept_buffers_are_used, no_pieces, sink_plan,
    sink_sender, source_plan, speaks_of, transform_plan, with_all_transforms, with_sinks,
    with_sources, with_transforms, Builder, BuilderView, InputEntry, SinkReport, SourceReport,
    TableReport, TransformReport, TransformReports, Wiring,
};
use crate::topology::diff::ConfigDiff;
use crate::topology::outputs::{finalize_outputs, finalized, PortMap};
use crate::topology::tables::{load_views, with_tables, TableLoad};

verus! {

/// The pieces of a topology that a configuration needed anew.
pub struct TopologyPieces<W: Wiring> {
    pub inputs: ComponentMap<InputEntry<W::Sender>>,
    pub outputs: ComponentMap<PortMap<W::Control>>,
    pub tasks: ComponentMap<W::Task>,
    pub source_tasks: ComponentMap<W::Task>,
    pub healthchecks: ComponentMap<W::Task>,
    pub shutdown_coordinator: W::Shutdown,
    pub detach_triggers: ComponentMap<W::Trigger>,
    pub metrics_storage: W::Metrics,
    pub utilization: Option<(W::Emitter, W::Registry)>,
}

/// What is built from the pieces that were put together.
pub open spec fn is_made_of<W: Wiring>(
    pieces: TopologyPieces<W>,
    parts: BuilderView<W>,
) -> bool {
    &&& fed(pieces.inputs@) == parts.inputs
    &&& viewed(pieces.outputs@) == finalized(parts.outputs)
    &&& pieces.tasks@ == parts.tasks
    &&& pieces.source_tasks@ == parts.source_tasks
    &&& pieces.healthchecks@ == parts.healthchecks
    &&& pieces.detach_triggers@ == parts.detach_triggers
}

/// The pieces are handed out where nothing went wrong; else what went wrong is.
pub open spec fn is_outcome<W: Wiring>(
    result: Result<TopologyPieces<W>, Vec<String>>,
    parts: BuilderView<W>,
    shutdown_coordinator: W::Shutdown,
    metrics_storage: W::Metrics,
) -> bool {
    match result {
        Ok(pieces) => {
            &&& parts.errors.len() == 0
            &&& is_made_of(pieces, parts)
            &&& pieces.shutdown_coordinator == shutdown_coordinator
            &&& pieces.metrics_storage == metrics_storage
        },
        Err(errors) => parts.errors.len() > 0 && texts(errors@) == parts.errors,
    }
}

impl<W: Wiring> Builder<'_, W> {
    /// Hands out the pieces where nothing went wrong, else what went wrong. What sends utilization
    /// is handed out only where it was made here.
    pub fn build(self, shutdown_coordinator: W::Shutdown, metrics_storage: W::Metrics) -> (result:
        Result<TopologyPieces<W>, Vec<String>>)
        ensures
            is_outcome(result, self@, shutdown_coordinator, metrics_storage),
            match result {
                Ok(pieces) => pieces.utilization == (match self.utilization_emitter {
                    Some(emitter) => Some((emitter, self.utilization_registry)),
                    None => None,
                }),
                Err(_) => true,
            },
    {
        assert(texts(self.errors@).len() == self.errors@.len());
        if self.errors.len() == 0 {
            Ok(
                TopologyPieces {
                    inputs: self.inputs,
                    outputs: finalize_outputs(self.outputs),
                    tasks: self.tasks,
                    source_tasks: self.source_tasks,
                    healthchecks: self.healthchecks,
                    shutdown_coordinator,
                    detach_triggers: self.detach_triggers,
                    metrics_storage,
                    utilization: match self.utilization_emitter {
                        Some(emitter) => Some((emitter, self.utilization_registry)),
                        None => None,
                    },
                },
            )
        } else {
            Err(self.errors)
        }
    }
}

/// What became of everything that had to be built.
pub struct BuildWork<W: Wiring> {
    pub table_plan: Vec<TableLoad>,
    pub tables: Vec<TableReport<()>>,
    pub sources: Vec<SourceReport<W>>,
    pub transforms: TransformReports<W>,
    pub sinks: Vec<SinkReport<W>>,
    pub shutdown_coordinator: W::Shutdown,
    pub metrics_storage: W::Metrics,
}

/// The reports speak of what had to be built, and of nothing else; and each sink that was built has
/// a buffer.
pub open spec fn work_fits<W: Wiring>(
    work: BuildWork<W>,
    buffers: Seq<(Seq<char>, (W::Sender, W::Receiver))>,
    config: ConfigView<W>,
    diff: ConfigDiff,
) -> bool {
    &&& work.tables@.len() == work.table_plan@.len()
    &&& work.sources@.len() == source_plan(config, diff).len()
    &&& speaks_of(work.transforms, transform_plan(config, diff).len())
    &&& work.sinks@.len() == sink_plan(config, diff).len()
    &&& all_buffered(buffers, sink_plan(config, diff), work.sinks@)
}

/// The pieces that are put together before the sinks: tables first, then sources and transforms.
pub open spec fn parts_before_sinks<W: Wiring>(
    buffers: Seq<(Seq<char>, (W::Sender, W::Receiver))>,
    config: ConfigView<W>,
    diff: ConfigDiff,
    work: BuildWork<W>,
) -> BuilderView<W> {
    let tables = with_tables(no_pieces(buffers), load_views(work.table_plan@), work.tables@);
    let sources = with_sources(tables, source_plan(config, diff), work.sources@);
    with_all_transforms(sources, transform_plan(config, diff), work.transforms)
}

/// The pieces that are put together: tables first, then sources, transforms and sinks.
pub open spec fn all_parts<W: Wiring>(
    buffers: Seq<(Seq<char>, (W::Sender, W::Receiver))>,
    config: ConfigView<W>,
    diff: ConfigDiff,
    work: BuildWork<W>,
) -> BuilderView<W> {
    with_sinks(
        parts_before_sinks(buffers, config, diff, work),
        sink_plan(config, diff),
        work.sinks@,
    )
}

/// Builds the pieces of a topology, with what it needs given one by one.
pub struct TopologyPiecesBuilder<'a, W: Wiring> {
    pub config: &'a Config<W>,
    pub diff: &'a ConfigDiff,
    pub buffers: KeyedMap<ComponentKey, (W::Sender, W::Receiver)>,
    pub extra_context: W::Context,
    pub utilization_registry: Option<W::Registry>,
}

impl<'a, W: Wiring> TopologyPiecesBuilder<'a, W> {
    /// Creates a new builder with required parameters.
    pub fn new(config: &'a Config<W>, diff: &'a ConfigDiff) -> (builder: Self)
        ensures
            builder.config == config,
            builder.diff == diff,
            builder.buffers@ == Seq::<(Seq<char>, (W::Sender, W::Receiver))>::empty(),
            call_ensures(W::Context::default, (), builder.extra_context),
            builder.utilization_registry is None,
    {
        TopologyPiecesBuilder {
            config,
            diff,
            buffers: KeyedMap::new(),
            extra_context: W::Context::default(),
            utilization_registry: None,
        }
    }

    /// Sets the buffers for the topology.
    pub fn with_buffers(
        self,
        buffers: KeyedMap<ComponentKey, (W::Sender, W::Receiver)>,
    ) -> (builder: Self)
        ensures
            builder == (TopologyPiecesBuilder { buffers, ..self }),
    {
        TopologyPiecesBuilder { buffers, ..self }
    }

    /// Sets the extra context for the topology.
    pub fn with_extra_context(self, extra_context: W::Context) -> (builder: Self)
        ensures
            builder == (TopologyPiecesBuilder { extra_context, ..self }),
    {
        TopologyPiecesBuilder { extra_context, ..self }
    }

    /// Sets the utilization registry for the topology.
    pub fn with_utilization_registry(self, registry: Option<W::Registry>) -> (builder: Self)
        ensures
            builder == (TopologyPiecesBuilder { utilization_registry: registry, ..self }),
    {
        TopologyPiecesBuilder { utilization_registry: registry, ..self }
    }

    /// Starts building, with nothing built yet.
    pub fn start<F: FnOnce() -> (W::Emitter, W::Registry)>(self, fresh: F) -> (builder: Builder<
        'a,
        W,
    >)
        requires
            call_requires(fresh, ()),
        ensures
            builder@ == no_pieces::<W>(self.buffers@),
            builder.config == self.config,
            builder.diff == self.diff,
            builder.extra_context == self.extra_context,
            match self.utilization_registry {
                Some(registry) => builder.utilization_emitter is None
                    && builder.utilization_registry == registry,
                None => builder.utilization_emitter is Some && call_ensures(
                    fresh,
                    (),
                    (builder.utilization_emitter->0, builder.utilization_registry),
                ),
            },
    {
        Builder::new(
            self.config,
            self.diff,
            self.buffers,
            self.extra_context,
            self.utilization_registry,
            fresh,
        )
    }

    /// Builds the topology pieces, returning errors if any occur.
    ///
    /// Use this method when you need to handle errors explicitly,
    /// such as in tests or validation code.
    pub fn build<F: FnOnce() -> (W::Emitter, W::Registry)>(
        self,
        fresh: F,
        work: BuildWork<W>,
    ) -> (result: Result<TopologyPieces<W>, Vec<String>>)
        requires
            call_requires(fresh, ()),
            work_fits(work, self.buffers@, self.config@, *self.diff),
        ensures
            is_outcome(
                result,
                all_parts(self.buffers@, self.config@, *self.diff, work),
                work.shutdown_coordinator,
                work.metrics_storage,
            ),
            match (result, self.utilization_registry) {
                (Ok(pieces), Some(_)) => pieces.utilization is None,
                (Ok(pieces), None) => pieces.utilization is Some && call_ensures(
                    fresh,
                    (),
                    pieces.utilization->0,
                ),
                (Err(_), _) => true,
            },
    {
        let mut builder = self.start(fresh);
        builder.load_enrichment_tables(&work.table_plan, work.tables);
        builder.build_sources(work.sources);
        builder.build_transforms(work.transforms);
        proof {
            lemma_before_sinks(self.buffers@, self.config@, *self.diff, work);
        }
        builder.build_sinks(work.sinks);
        builder.build(work.shutdown_coordinator, work.metrics_storage)
    }

    /// Builds the topology pieces, handing out any errors that occur so that they are logged.
    ///
    /// Use this method for runtime configuration loading where
    /// errors should be logged and execution should continue.
    pub fn build_or_log_errors<F: FnOnce() -> (W::Emitter, W::Registry)>(
        self,
        fresh: F,
        work: BuildWork<W>,
    ) -> (result: (Option<TopologyPieces<W>>, Vec<String>))
        requires
            call_requires(fresh, ()),
            work_fits(work, self.buffers@, self.config@, *self.diff),
        ensures
            texts(result.1@) == all_parts(
                self.buffers@,
                self.config@,
                *self.diff,
                work,
            ).errors,
            match result.0 {
                Some(pieces) => is_outcome(
                    Ok(pieces),
                    all_parts(self.buffers@, self.config@, *self.diff, work),
                    work.shutdown_coordinator,
                    work.metrics_storage,
                ),
                None => result.1@.len() > 0,
            },
            match (result.0, self.utilization_registry) {
                (Some(pieces), Some(_)) => pieces.utilization is None,
                (Some(pieces), None) => pieces.utilization is Some && call_ensures(
                    fresh,
                    (),
                    pieces.utilization->0,
                ),
                (None, _) => true,
            },
    {
        match self.build(fresh, work) {
            Ok(pieces) => {
                let errors: Vec<String> = Vec::new();
                assert(texts(errors@) =~= all_parts(
                    self.buffers@,
                    self.config@,
                    *self.diff,
                    work,
                ).errors);
                (Some(pieces), errors)
            },
            Err(errors) => {
                assert(texts(errors@).len() == errors@.len());
                (None, errors)
            },
        }
    }
}

impl<W: Wiring> TopologyPieces<W> {
    /// Builds only the new pieces, and doesn't check their topology.
    pub fn build<F: FnOnce() -> (W::Emitter, W::Registry)>(
        config: &Config<W>,
        diff: &ConfigDiff,
        buffers: KeyedMap<ComponentKey, (W::Sender, W::Receiver)>,
        extra_context: W::Context,
        utilization_registry: Option<W::Registry>,
        fresh: F,
        work: BuildWork<W>,
    ) -> (result: Result<TopologyPieces<W>, Vec<String>>)
        requires
            call_requires(fresh, ()),
            work_fits(work, buffers@, config@, *diff),
        ensures
            is_outcome(
                result,
                all_parts(buffers@, config@, *diff, work),
                work.shutdown_coordinator,
                work.metrics_storage,
            ),
            match (result, utilization_registry) {
                (Ok(pieces), Some(_)) => pieces.utilization is None,
                (Ok(pieces), None) => pieces.utilization is Some && call_ensures(
                    fresh,
                    (),
                    pieces.utilization->0,
                ),
                (Err(_), _) => true,
            },
    {
        TopologyPiecesBuilder::new(config, diff).with_buffers(buffers).with_extra_context(
            extra_context,
        ).with_utilization_registry(utilization_registry).build(fresh, work)
    }

    /// Builds only the new pieces, handing out any errors that occur so that they are logged.
    pub fn build_or_log_errors<F: FnOnce() -> (W::Emitter, W::Registry)>(
        config: &Config<W>,
        diff: &ConfigDiff,
        buffers: KeyedMap<ComponentKey, (W::Sender, W::Receiver)>,
        extra_context: W::Context,
        utilization_registry: Option<W::Registry>,
        fresh: F,
        work: BuildWork<W>,
    ) -> (result: (Option<TopologyPieces<W>>, Vec<String>))
        requires
            call_requires(fresh, ()),
            work_fits(work, buffers@, config@, *diff),
        ensures
            texts(result.1@) == all_parts(buffers@, config@, *diff, work).errors,
            match result.0 {
                Some(pieces) => is_outcome(
                    Ok(pieces),
                    all_parts(buffers@, config@, *diff, work),
                    work.shutdown_coordinator,
                    work.metrics_storage,
                ),
                None => result.1@.len() > 0,
            },
            match (result.0, utilization_registry) {
                (Some(pieces), Some(_)) => pieces.utilization is None,
                (Some(pieces), None) => pieces.utilization is Some && call_ensures(
                    fresh,
                    (),
                    pieces.utilization->0,
                ),
                (None, _) => true,
            },
    {
        TopologyPiecesBuilder::new(config, diff).with_buffers(buffers).with_extra_context(
            extra_context,
        ).with_utilization_registry(utilization_registry).build_or_log_errors(fresh, work)
    }
}

// ---------------------------------------------------------------------------------------------
// What holds of everything that is built.
// ---------------------------------------------------------------------------------------------

/// What went wrong with the tables of a plan.
pub open spec fn table_errors<T>(
    plan: Seq<(Seq<char>, bool)>,
    reports: Seq<TableReport<T>>,
) -> Seq<Seq<char>>
    decreases reports.len(),
{
    if reports.len() == 0 {
        Seq::empty()
    } else {
        table_errors(plan, reports.drop_last()) + match reports.last() {
            TableReport::Failed(error) => seq![
                component_error("Enrichment Table"@, plan[reports.len() - 1].0, error@),
            ],
            _ => Seq::empty(),
        }
    }
}

/// What went wrong with a list of sources.
pub open spec fn source_errors<W: Wiring>(
    keys: Seq<Seq<char>>,
    reports: Seq<SourceReport<W>>,
) -> Seq<Seq<char>>
    decreases reports.len(),
{
    if reports.len() == 0 {
        Seq::empty()
    } else {
        source_errors(keys, reports.drop_last()) + match reports.last() {
            SourceReport::Failed(error) => seq![
                component_error("Source"@, keys[reports.len() - 1], error@),
            ],
            _ => Seq::empty(),
        }
    }
}

/// What went wrong with a list of transforms.
pub open spec fn transform_errors<W: Wiring>(
    transforms: Seq<(Seq<char>, Seq<OutputIdView>)>,
    reports: Seq<TransformReport<W>>,
) -> Seq<Seq<char>>
    decreases reports.len(),
{
    if reports.len() == 0 {
        Seq::empty()
    } else {
        let key = transforms[reports.len() - 1].0;
        transform_errors(transforms, reports.drop_last()) + match reports.last() {
            TransformReport::Panicked(error) => seq![
                component_error("Transform"@, key, "task panicked: "@ + error@),
            ],
            TransformReport::Failed(error) => seq![component_error("Transform"@, key, error@)],
            _ => Seq::empty(),
        }
    }
}

/// What went wrong with all transforms.
pub open spec fn all_transform_errors<W: Wiring>(
    transforms: Seq<(Seq<char>, Seq<OutputIdView>)>,
    reports: TransformReports<W>,
) -> Seq<Seq<char>> {
    match reports {
        TransformReports::SchemaFailed => Seq::empty(),
        TransformReports::Built(list) => transform_errors(transforms, list@),
    }
}

/// What went wrong with a list of sinks.
pub open spec fn sink_errors<W: Wiring>(
    sinks: Seq<(Seq<char>, Seq<OutputIdView>)>,
    reports: Seq<SinkReport<W>>,
) -> Seq<Seq<char>>
    decreases reports.len(),
{
    if reports.len() == 0 {
        Seq::empty()
    } else {
        sink_errors(sinks, reports.drop_last()) + texts(reports.last().expectations@) + match
            reports.last().built {
            Err(error) => seq![component_error("Sink"@, sinks[reports.len() - 1].0, error@)],
            Ok(_) => Seq::empty(),
        }
    }
}

proof fn lemma_table_errors_are<W: Wiring>(
    pieces: BuilderView<W>,
    plan: Seq<(Seq<char>, bool)>,
    reports: Seq<TableReport<()>>,
)
    ensures
        with_tables(pieces, plan, reports) == (BuilderView {
            errors: pieces.errors + table_errors(plan, reports),
            ..pieces
        }),
    decreases reports.len(),
{
    if reports.len() > 0 {
        lemma_table_errors_are(pieces, plan, reports.drop_last());
    }
    assert(with_tables(pieces, plan, reports) =~= (BuilderView {
        errors: pieces.errors + table_errors(plan, reports),
        ..pieces
    }));
}

/// A source of the name was built.
pub open spec fn source_built<W: Wiring>(
    keys: Seq<Seq<char>>,
    reports: Seq<SourceReport<W>>,
    key: Seq<char>,
) -> bool {
    exists|i: int| 0 <= i < reports.len() && #[trigger] keys[i] == key && reports[i] is Built
}

/// A transform of the name was built.
pub open spec fn transform_built<W: Wiring>(
    transforms: Seq<(Seq<char>, Seq<OutputIdView>)>,
    reports: TransformReports<W>,
    key: Seq<char>,
) -> bool {
    match reports {
        TransformReports::SchemaFailed => false,
        TransformReports::Built(list) => exists|i: int|
            0 <= i < list@.len() && #[trigger] transforms[i].0 == key && list@[i] is Built,
    }
}

/// A sink of the name was built.
pub open spec fn sink_built<W: Wiring>(
    sinks: Seq<(Seq<char>, Seq<OutputIdView>)>,
    reports: Seq<SinkReport<W>>,
    key: Seq<char>,
) -> bool {
    exists|i: int|
        0 <= i < reports.len() && #[trigger] sinks[i].0 == key && reports[i].built is Ok
}

proof fn lemma_sources<W: Wiring>(
    pieces: BuilderView<W>,
    keys: Seq<Seq<char>>,
    reports: Seq<SourceReport<W>>,
    key: Seq<char>,
)
    requires
        reports.len() <= keys.len(),
    ensures
        ({
            let after = with_sources(pieces, keys, reports);
            let built = source_built(keys, reports, key);
            &&& after.errors == pieces.errors + source_errors(keys, reports)
            &&& has_key(after.source_tasks, key) == (built || has_key(pieces.source_tasks, key))
            &&& has_key(after.tasks, key) == (built || has_key(pieces.tasks, key))
            &&& after.inputs == pieces.inputs
            &&& after.buffers == pieces.buffers
            &&& after.healthchecks == pieces.healthchecks
            &&& after.detach_triggers == pieces.detach_triggers
        }),
    decreases reports.len(),
{
    let after = with_sources(pieces, keys, reports);
    if reports.len() > 0 {
        let front = reports.drop_last();
        let last = reports.len() - 1;
        let before = with_sources(pieces, keys, front);
        lemma_sources(pieces, keys, front, key);
        if source_built(keys, front, key) {
            let i = choose|i: int|
                0 <= i < front.len() && #[trigger] keys[i] == key && front[i] is Built;
            assert(reports[i] is Built);
        }
        if reports.last() is Built && keys[last] == key {
            assert(source_built(keys, reports, key)) by {
                assert(reports[last] is Built);
            }
        }
        if source_built(keys, reports, key) && !(reports.last() is Built && keys[last] == key) {
            let i = choose|i: int|
                0 <= i < reports.len() && #[trigger] keys[i] == key && reports[i] is Built;
            assert(front[i] is Built);
        }
        if let SourceReport::Built { controls, pump, server } = reports.last() {
            lemma_upsert_has_key(before.tasks, keys[last], pump, key);
            lemma_upsert_has_key(before.source_tasks, keys[last], server, key);
        }
    }
    assert(after.errors =~= pieces.errors + source_errors(keys, reports));
}

proof fn lemma_transforms<W: Wiring>(
    pieces: BuilderView<W>,
    transforms: Seq<(Seq<char>, Seq<OutputIdView>)>,
    reports: Seq<TransformReport<W>>,
    key: Seq<char>,
)
    requires
        reports.len() <= transforms.len(),
    ensures
        ({
            let after = with_transforms(pieces, transforms, reports);
            let built = exists|i: int|
                0 <= i < reports.len() && #[trigger] transforms[i].0 == key && reports[i] is Built;
            &&& after.errors == pieces.errors + transform_errors(transforms, reports)
            &&& has_key(after.tasks, key) == (built || has_key(pieces.tasks, key))
            &&& has_key(after.inputs, key) == (built || has_key(pieces.inputs, key))
            &&& distinct_keys(pieces.inputs) ==> distinct_keys(after.inputs)
            &&& after.source_tasks == pieces.source_tasks
            &&& after.buffers == pieces.buffers
            &&& after.healthchecks == pieces.healthchecks
            &&& after.detach_triggers == pieces.detach_triggers
        }),
    decreases reports.len(),
{
    let after = with_transforms(pieces, transforms, reports);
    if reports.len() > 0 {
        let front = reports.drop_last();
        let last = reports.len() - 1;
        let before = with_transforms(pieces, transforms, front);
        lemma_transforms(pieces, transforms, front, key);
        assert forall|i: int| 0 <= i < front.len() implies front[i] == reports[i] by {}
        if let TransformReport::Built { sender, controls, task } = reports.last() {
            lemma_upsert_has_key(before.tasks, transforms[last].0, task, key);
            lemma_upsert_has_key(
                before.inputs,
                transforms[last].0,
                (sender, transforms[last].1),
                key,
            );
            if distinct_keys(before.inputs) {
                lemma_upsert_distinct(
                    before.inputs,
                    transforms[last].0,
                    (sender, transforms[last].1),
                );
            }
        }
        let built = exists|i: int|
            0 <= i < reports.len() && #[trigger] transforms[i].0 == key && reports[i] is Built;
        let built_before = exists|i: int|
            0 <= i < front.len() && #[trigger] transforms[i].0 == key && front[i] is Built;
        if built_before {
            let i = choose|i: int|
                0 <= i < front.len() && #[trigger] transforms[i].0 == key && front[i] is Built;
            assert(transforms[i].0 == key && reports[i] is Built);
        }
        if reports.last() is Built && transforms[last].0 == key {
            assert(transforms[last].0 == key && reports[last] is Built);
        }
        if built && !(reports.last() is Built && transforms[last].0 == key) {
            let i = choose|i: int|
                0 <= i < reports.len() && #[trigger] transforms[i].0 == key && reports[i] is Built;
            assert(transforms[i].0 == key && front[i] is Built);
        }
    }
    assert(after.errors =~= pieces.errors + transform_errors(transforms, reports));
}

proof fn lemma_sinks<W: Wiring>(
    pieces: BuilderView<W>,
    sinks: Seq<(Seq<char>, Seq<OutputIdView>)>,
    reports: Seq<SinkReport<W>>,
    key: Seq<char>,
)
    requires
        reports.len() <= sinks.len(),
    ensures
        ({
            let after = with_sinks(pieces, sinks, reports);
            let built = sink_built(sinks, reports, key);
            &&& after.errors == pieces.errors + sink_errors(sinks, reports)
            &&& has_key(after.tasks, key) == (built || has_key(pieces.tasks, key))
            &&& has_key(after.inputs, key) == (built || has_key(pieces.inputs, key))
            &&& has_key(after.healthchecks, key) == (built || has_key(pieces.healthchecks, key))
            &&& has_key(after.detach_triggers, key) == (built || has_key(
                pieces.detach_triggers,
                key,
            ))
            &&& after.source_tasks == pieces.source_tasks
        }),
    decreases reports.len(),
{
    let after = with_sinks(pieces, sinks, reports);
    if reports.len() > 0 {
        let front = reports.drop_last();
        let last = reports.len() - 1;
        let before = with_sinks(pieces, sinks, front);
        lemma_sinks(pieces, sinks, front, key);
        let name = sinks[last].0;
        if let Ok(sink) = reports.last().built {
            lemma_upsert_has_key(before.tasks, name, sink.task, key);
            let sender = sink_sender(lookup(before.buffers, name), sink.sender);
            lemma_upsert_has_key(before.inputs, name, (sender, sinks[last].1), key);
            lemma_upsert_has_key(before.healthchecks, name, sink.healthcheck, key);
            lemma_upsert_has_key(before.detach_triggers, name, sink.trigger, key);
        }
        if sink_built(sinks, front, key) {
            let i = choose|i: int|
                0 <= i < front.len() && #[trigger] sinks[i].0 == key && front[i].built is Ok;
            assert(reports[i].built is Ok);
        }
        if reports.last().built is Ok && name == key {
            assert(sinks[last].0 == key && reports[last].built is Ok);
        }
        if sink_built(sinks, reports, key) && !(reports.last().built is Ok && name == key) {
            let i = choose|i: int|
                0 <= i < reports.len() && #[trigger] sinks[i].0 == key && reports[i].built is Ok;
            assert(front[i].built is Ok);
        }
    }
    assert(after.errors =~= pieces.errors + sink_errors(sinks, reports));
}

/// What went wrong is told in the order in which things are built: tables, sources, transforms,
/// sinks.
pub proof fn law_errors_in_order<W: Wiring>(
    buffers: Seq<(Seq<char>, (W::Sender, W::Receiver))>,
    config: ConfigView<W>,
    diff: ConfigDiff,
    work: BuildWork<W>,
)
    requires
        work_fits(work, buffers, config, diff),
    ensures
        all_parts(buffers, config, diff, work).errors == table_errors(
            load_views(work.table_plan@),
            work.tables@,
        ) + source_errors(source_plan(config, diff), work.sources@) + all_transform_errors(
            transform_plan(config, diff),
            work.transforms,
        ) + sink_errors(sink_plan(config, diff), work.sinks@),
{
    law_pieces(buffers, config, diff, work, Seq::empty());
}

/// Each built component has its pieces, and nothing else has any: a source has a task that runs
/// it, a sink a healthcheck and a trigger, a transform and a sink an input, and all of them have a
/// task.
pub proof fn law_pieces<W: Wiring>(
    buffers: Seq<(Seq<char>, (W::Sender, W::Receiver))>,
    config: ConfigView<W>,
    diff: ConfigDiff,
    work: BuildWork<W>,
    key: Seq<char>,
)
    requires
        work_fits(work, buffers, config, diff),
    ensures
        ({
            let parts = all_parts(buffers, config, diff, work);
            let source = source_built(source_plan(config, diff), work.sources@, key);
            let transform = transform_built(transform_plan(config, diff), work.transforms, key);
            let sink = sink_built(sink_plan(config, diff), work.sinks@, key);
            &&& has_key(parts.source_tasks, key) == source
            &&& has_key(parts.healthchecks, key) == sink
            &&& has_key(parts.detach_triggers, key) == sink
            &&& has_key(parts.inputs, key) == (transform || sink)
            &&& has_key(parts.tasks, key) == (source || transform || sink)
            &&& parts.errors == table_errors(load_views(work.table_plan@), work.tables@)
                + source_errors(source_plan(config, diff), work.sources@) + all_transform_errors(
                transform_plan(config, diff),
                work.transforms,
            ) + sink_errors(sink_plan(config, diff), work.sinks@)
        }),
{
    let none = no_pieces::<W>(buffers);
    let plan = load_views(work.table_plan@);
    let tables = with_tables(none, plan, work.tables@);
    let sources = with_sources(tables, source_plan(config, diff), work.sources@);
    let transforms = with_all_transforms(sources, transform_plan(config, diff), work.transforms);
    lemma_table_errors_are(none, plan, work.tables@);
    lemma_sources(tables, source_plan(config, diff), work.sources@, key);
    match work.transforms {
        TransformReports::SchemaFailed => {},
        TransformReports::Built(list) => {
            lemma_transforms(sources, transform_plan(config, diff), list@, key);
        },
    }
    lemma_sinks(transforms, sink_plan(config, diff), work.sinks@, key);
    let errors = all_parts(buffers, config, diff, work).errors;
    assert(errors =~= table_errors(plan, work.tables@) + source_errors(
        source_plan(config, diff),
        work.sources@,
    ) + all_transform_errors(transform_plan(config, diff), work.transforms) + sink_errors(
        sink_plan(config, diff),
        work.sinks@,
    ));
}

/// Until sinks are built, all buffers are kept.
proof fn lemma_before_sinks<W: Wiring>(
    buffers: Seq<(Seq<char>, (W::Sender, W::Receiver))>,
    config: ConfigView<W>,
    diff: ConfigDiff,
    work: BuildWork<W>,
)
    requires
        work_fits(work, buffers, config, diff),
    ensures
        parts_before_sinks(buffers, config, diff, work).buffers == buffers,
        distinct_keys(parts_before_sinks(buffers, config, diff, work).inputs),
{
    let none = no_pieces::<W>(buffers);
    let plan = load_views(work.table_plan@);
    let tables = with_tables(none, plan, work.tables@);
    let sources = with_sources(tables, source_plan(config, diff), work.sources@);
    lemma_table_errors_are(none, plan, work.tables@);
    lemma_sources(tables, source_plan(config, diff), work.sources@, Seq::empty());
    match work.transforms {
        TransformReports::SchemaFailed => {},
        TransformReports::Built(list) => {
            lemma_transforms(sources, transform_plan(config, diff), list@, Seq::empty());
        },
    }
}

/// A sink for which a buffer was kept is fed through the sending half of that buffer, and from what
/// it reads from.
pub proof fn law_kept_buffers_feed_sinks<W: Wiring>(
    buffers: Seq<(Seq<char>, (W::Sender, W::Receiver))>,
    config: ConfigView<W>,
    diff: ConfigDiff,
    work: BuildWork<W>,
    i: int,
)
    requires
        work_fits(work, buffers, config, diff),
        distinct_keys(buffers),
        distinct_keys(sink_plan(config, diff)),
        0 <= i < sink_plan(config, diff).len(),
        work.sinks@[i].built is Ok,
        lookup(buffers, sink_plan(config, diff)[i].0) is Some,
    ensures
        ({
            let sink = sink_plan(config, diff)[i];
            let parts = all_parts(buffers, config, diff, work);
            let sender = (lookup(buffers, sink.0)->0).0;
            &&& lookup(parts.inputs, sink.0) == Some((sender, sink.1))
            &&& lookup(parts.buffers, sink.0) is None
        }),
{
    let before = parts_before_sinks(buffers, config, diff, work);
    let sinks = sink_plan(config, diff);
    lemma_before_sinks(buffers, config, diff, work);
    law_kept_buffers_are_used(before, sinks, work.sinks@, i);
}

/// Nothing went wrong with anything that had to be built.
pub open spec fn all_is_well<W: Wiring>(work: BuildWork<W>) -> bool {
    &&& forall|i: int| 0 <= i < work.tables@.len() ==> !(#[trigger] work.tables@[i] is Failed)
    &&& forall|i: int| 0 <= i < work.sources@.len() ==> #[trigger] work.sources@[i] is Built
    &&& match work.transforms {
        TransformReports::SchemaFailed => true,
        TransformReports::Built(list) => forall|i: int|
            0 <= i < list@.len() ==> #[trigger] list@[i] is Built,
    }
    &&& forall|i: int|
        0 <= i < work.sinks@.len() ==> (#[trigger] work.sinks@[i]).expectations@.len() == 0
            && work.sinks@[i].built is Ok
}

/// The pieces are handed out exactly where nothing went wrong. A schema that could not be worked
/// out is not counted among what went wrong; it only leaves the transforms out.
pub proof fn law_build_succeeds<W: Wiring>(
    buffers: Seq<(Seq<char>, (W::Sender, W::Receiver))>,
    config: ConfigView<W>,
    diff: ConfigDiff,
    work: BuildWork<W>,
)
    requires
        work_fits(work, buffers, config, diff),
    ensures
        (all_parts(buffers, config, diff, work).errors.len() == 0) == all_is_well(work),
{
    law_errors_in_order(buffers, config, diff, work);
    lemma_no_table_errors(load_views(work.table_plan@), work.tables@);
    lemma_no_source_errors(source_plan(config, diff), work.sources@);
    match work.transforms {
        TransformReports::SchemaFailed => {},
        TransformReports::Built(list) => {
            lemma_no_transform_errors(transform_plan(config, diff), list@);
        },
    }
    lemma_no_sink_errors(sink_plan(config, diff), work.sinks@);
}

proof fn lemma_no_table_errors<T>(plan: Seq<(Seq<char>, bool)>, reports: Seq<TableReport<T>>)
    ensures
        (table_errors(plan, reports).len() == 0) == (forall|i: int|
            0 <= i < reports.len() ==> !(#[trigger] reports[i] is Failed)),
    decreases reports.len(),
{
    if reports.len() > 0 {
        let front = reports.drop_last();
        let last = reports.len() - 1;
        lemma_no_table_errors(plan, front);
        assert forall|i: int| 0 <= i < front.len() implies front[i] == reports[i] by {}
        if table_errors(plan, reports).len() == 0 {
            assert forall|i: int| 0 <= i < reports.len() implies !(
            #[trigger] reports[i] is Failed) by {
                if i < last {
                    assert(!(front[i] is Failed));
                }
            }
        } else if forall|i: int| 0 <= i < reports.len() ==> !(#[trigger] reports[i] is Failed) {
            assert(!(reports[last] is Failed));
            assert forall|i: int| 0 <= i < front.len() implies !(#[trigger] front[i] is Failed) by {
                assert(!(reports[i] is Failed));
            }
        }
    }
}

proof fn lemma_no_source_errors<W: Wiring>(keys: Seq<Seq<char>>, reports: Seq<SourceReport<W>>)
    ensures
        (source_errors(keys, reports).len() == 0) == (forall|i: int|
            0 <= i < reports.len() ==> #[trigger] reports[i] is Built),
    decreases reports.len(),
{
    if reports.len() > 0 {
        let front = reports.drop_last();
        let last = reports.len() - 1;
        lemma_no_source_errors(keys, front);
        if source_errors(keys, reports).len() == 0 {
            assert forall|i: int| 0 <= i < reports.len() implies #[trigger] reports[i] is Built by {
                if i < last {
                    assert(front[i] is Built);
                }
            }
        } else if forall|i: int| 0 <= i < reports.len() ==> #[trigger] reports[i] is Built {
            assert(reports[last] is Built);
            assert forall|i: int| 0 <= i < front.len() implies #[trigger] front[i] is Built by {
                assert(reports[i] is Built);
            }
        }
    }
}

proof fn lemma_no_transform_errors<W: Wiring>(
    transforms: Seq<(Seq<char>, Seq<OutputIdView>)>,
    reports: Seq<TransformReport<W>>,
)
    ensures
        (transform_errors(transforms, reports).len() == 0) == (forall|i: int|
            0 <= i < reports.len() ==> #[trigger] reports[i] is Built),
    decreases reports.len(),
{
    if reports.len() > 0 {
        let front = reports.drop_last();
        let last = reports.len() - 1;
        lemma_no_transform_errors(transforms, front);
        if transform_errors(transforms, reports).len() == 0 {
            assert forall|i: int| 0 <= i < reports.len() implies #[trigger] reports[i] is Built by {
                if i < last {
                    assert(front[i] is Built);
                }
            }
        } else if forall|i: int| 0 <= i < reports.len() ==> #[trigger] reports[i] is Built {
            assert(reports[last] is Built);
            assert forall|i: int| 0 <= i < front.len() implies #[trigger] front[i] is Built by {
                assert(reports[i] is Built);
            }
        }
    }
}

proof fn lemma_no_sink_errors<W: Wiring>(
    sinks: Seq<(Seq<char>, Seq<OutputIdView>)>,
    reports: Seq<SinkReport<W>>,
)
    ensures
        (sink_errors(sinks, reports).len() == 0) == (forall|i: int|
            0 <= i < reports.len() ==> (#[trigger] reports[i]).expectations@.len() == 0
                && reports[i].built is Ok),
    decreases reports.len(),
{
    if reports.len() > 0 {
        let front = reports.drop_last();
        let last = reports.len() - 1;
        lemma_no_sink_errors(sinks, front);
        let well = |report: SinkReport<W>|
            report.expectations@.len() == 0 && report.built is Ok;
        assert(texts(reports.last().expectations@).len() == reports.last().expectations@.len());
        if sink_errors(sinks, reports).len() == 0 {
            assert forall|i: int| 0 <= i < reports.len() implies (
            #[trigger] reports[i]).expectations@.len() == 0 && reports[i].built is Ok by {
                if i < last {
                    assert(well(front[i]));
                }
            }
        } else if forall|i: int|
            0 <= i < reports.len() ==> (#[trigger] reports[i]).expectations@.len() == 0
                && reports[i].built is Ok {
            assert(well(reports[last]));
            assert forall|i: int| 0 <= i < front.len() implies (
            #[trigger] front[i]).expectations@.len() == 0 && front[i].built is Ok by {
                assert(well(reports[i]));
            }
        }
    }
}

/// What sends utilization is handed out exactly where no registry was passed on, and is then the
/// one that was made; and what a builder was given is what is built with.
pub proof fn law_utilization<'a, W: Wiring, F: FnOnce() -> (W::Emitter, W::Registry)>(
    config: &'a Config<W>,
    diff: &'a ConfigDiff,
    fresh_builder: TopologyPiecesBuilder<'a, W>,
    registry: Option<W::Registry>,
    builder: TopologyPiecesBuilder<'a, W>,
    fresh: F,
    work: BuildWork<W>,
    pieces: TopologyPieces<W>,
)
    requires
        call_ensures(TopologyPiecesBuilder::<'a, W>::new, (config, diff), fresh_builder),
        call_ensures(
            TopologyPiecesBuilder::<'a, W>::with_utilization_registry,
            (fresh_builder, registry),
            builder,
        ),
        work_fits(work, builder.buffers@, builder.config@, *builder.diff),
        call_ensures(
            TopologyPiecesBuilder::<'a, W>::build::<F>,
            (builder, fresh, work),
            Ok(pieces),
        ),
    ensures
        builder.config@ == config@,
        *builder.diff == *diff,
        builder.buffers@.len() == 0,
        registry is Some ==> pieces.utilization is None,
        registry is None ==> (pieces.utilization matches Some(made) && call_ensures(
            fresh,
            (),
            made,
        )),
        pieces.shutdown_coordinator == work.shutdown_coordinator,
        pieces.metrics_storage == work.metrics_storage,
{
}

/// Building is told in one of two ways: the pieces, or what went wrong. Where errors are handed out
/// to be logged, there are pieces exactly where there is no error.
pub proof fn law_errors_or_pieces<W: Wiring, F: FnOnce() -> (W::Emitter, W::Registry)>(
    builder: TopologyPiecesBuilder<'_, W>,
    fresh: F,
    work: BuildWork<W>,
    result: Result<TopologyPieces<W>, Vec<String>>,
    pieces: Option<TopologyPieces<W>>,
    errors: Vec<String>,
)
    requires
        work_fits(work, builder.buffers@, builder.config@, *builder.diff),
        call_ensures(TopologyPiecesBuilder::<W>::build::<F>, (builder, fresh, work), result),
        call_ensures(
            TopologyPiecesBuilder::<W>::build_or_log_errors::<F>,
            (builder, fresh, work),
            (pieces, errors),
        ),
    ensures
        pieces is Some <==> errors@.len() == 0,
        result is Ok <==> pieces is Some,
        result matches Err(told) ==> texts(told@) == texts(errors@),
        result matches Ok(built) ==> (pieces matches Some(same) && same.tasks@ == built.tasks@
            && same.source_tasks@ == built.source_tasks@ && same.healthchecks@
            == built.healthchecks@ && same.detach_triggers@ == built.detach_triggers@ && fed(
            same.inputs@,
        ) == fed(built.inputs@) && viewed(same.outputs@) == viewed(built.outputs@)),
{
    assert(texts(errors@).len() == errors@.len());
}

/// Building pieces at once comes to the same as building them with a builder that is given the same
/// things one by one.
pub proof fn law_built_at_once<'a, W: Wiring, F: FnOnce() -> (W::Emitter, W::Registry)>(
    config: &'a Config<W>,
    diff: &'a ConfigDiff,
    buffers: KeyedMap<ComponentKey, (W::Sender, W::Receiver)>,
    extra_context: W::Context,
    registry: Option<W::Registry>,
    fresh: F,
    work: BuildWork<W>,
    first: TopologyPiecesBuilder<'a, W>,
    second: TopologyPiecesBuilder<'a, W>,
    third: TopologyPiecesBuilder<'a, W>,
    builder: TopologyPiecesBuilder<'a, W>,
    result: Result<TopologyPieces<W>, Vec<String>>,
    at_once: Result<TopologyPieces<W>, Vec<String>>,
)
    requires
        call_ensures(TopologyPiecesBuilder::<'a, W>::new, (config, diff), first),
        call_ensures(TopologyPiecesBuilder::<'a, W>::with_buffers, (first, buffers), second),
        call_ensures(
            TopologyPiecesBuilder::<'a, W>::with_extra_context,
            (second, extra_context),
            third,
        ),
        call_ensures(
            TopologyPiecesBuilder::<'a, W>::with_utilization_registry,
            (third, registry),
            builder,
        ),
        work_fits(work, buffers@, config@, *diff),
        call_ensures(TopologyPiecesBuilder::<'a, W>::build::<F>, (builder, fresh, work), result),
        call_ensures(
            TopologyPieces::<W>::build::<F>,
            (config, diff, buffers, extra_context, registry, fresh, work),
            at_once,
        ),
    ensures
        builder.extra_context == extra_context,
        result is Ok <==> at_once is Ok,
        result matches Err(errors) ==> (at_once matches Err(told) && texts(told@) == texts(
            errors@,
        )),
        result matches Ok(pieces) ==> (at_once matches Ok(same) && same.tasks@ == pieces.tasks@
            && same.source_tasks@ == pieces.source_tasks@ && same.healthchecks@
            == pieces.healthchecks@ && same.detach_triggers@ == pieces.detach_triggers@ && fed(
            same.inputs@,
        ) == fed(pieces.inputs@) && viewed(same.outputs@) == viewed(pieces.outputs@)
            && same.shutdown_coordinator == pieces.shutdown_coordinator && same.metrics_storage
            == pieces.metrics_storage && (same.utilization is Some == pieces.utilization is Some)),
{
}

} // verus!

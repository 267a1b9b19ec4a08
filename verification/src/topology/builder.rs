//! The pieces of a topology, put together from what became of each component.

use vstd::prelude::*;

use crate::config::compiler::{lent, SinkRef};
use crate::config::{
    clone_ids, viewed, views, ComponentKey, Config, ConfigView, Domain, OutputId, OutputIdView,
    SinkView, TransformOuter, TransformView,
};
use crate::keyed::{lemma_without, texted, without, KeyedMap};
use crate::ordered::{
    distinct_keys, extended, keys_of, lemma_slot_mapped, lemma_upsert_distinct,
    lemma_upsert_lookup, lookup, pairs, upsert, ComponentMap,
};
use crate::text::{opt_text, texts};
use crate::topology::diff::{
    lemma_only_new_viewed, new_sink_entries, new_sinks, new_source_entries, new_sources,
    new_transforms, only_new, ConfigDiff,
};

verus! {

/// The values that a topology is made of and that nothing here looks into.
pub trait Wiring: Domain {
    /// The sending half of the buffer in front of a component.
    type Sender;

    /// A handle on the receiving half of the buffer in front of a sink. The task of the sink takes
    /// what is behind it when it runs, so that until then the buffer can serve another sink.
    type Receiver: Clone;

    /// The proxy that a component goes through.
    type Proxy;

    /// The options of the healthcheck of one sink.
    type Healthcheck;

    /// The handle that sinks and transforms are attached to an output by.
    type Control;

    /// A task that runs a component.
    type Task;

    /// The handle that a sink is detached from its input by.
    type Trigger;

    /// What tells sources to shut down.
    type Shutdown;

    /// Where metrics are kept.
    type Metrics;

    /// Values that are handed to every component.
    type Context: Default;

    /// What the utilization of components is sent by.
    type Emitter;

    /// What the utilization of components is registered with.
    type Registry;
}

// ---------------------------------------------------------------------------------------------
// Messages.
// ---------------------------------------------------------------------------------------------

/// What is said of a component that could not be built.
pub open spec fn component_error(kind: Seq<char>, key: Seq<char>, error: Seq<char>) -> Seq<char> {
    kind + " \""@ + key + "\": "@ + error
}

/// Says that a component could not be built, and why.
pub(crate) fn describe_error(kind: &str, key: &str, error: &str) -> (message: String)
    ensures
        message@ == component_error(kind@, key@, error@),
{
    kind.to_string().concat(" \"").concat(key).concat("\": ").concat(error)
}

/// The name of the task that moves the events of a source to its outputs.
pub open spec fn pump_name(component_name: Seq<char>, id: Seq<char>) -> Seq<char> {
    ">> "@ + component_name + " ("@ + id + ", pump) >>"@
}

/// Names the task that moves the events of a source to its outputs.
pub fn pump_task_name(component_name: &str, id: &str) -> (name: String)
    ensures
        name@ == pump_name(component_name@, id@),
{
    ">> ".to_string().concat(component_name).concat(" (").concat(id).concat(", pump) >>")
}

/// The kinds of sources that report on the process itself.
pub open spec fn is_internal_source(component_name: Seq<char>) -> bool {
    component_name == "internal_logs"@ || component_name == "internal_metrics"@
}

/// Tells whether a kind of source reports on the process itself.
pub fn internal_source(component_name: &String) -> (internal: bool)
    ensures
        internal == is_internal_source(component_name@),
{
    *component_name == "internal_logs".to_string() || *component_name
        == "internal_metrics".to_string()
}

// ---------------------------------------------------------------------------------------------
// What became of each component.
// ---------------------------------------------------------------------------------------------

/// What became of an enrichment table that was to be loaded.
pub enum TableReport<T> {
    /// It could not be built.
    Failed(String),
    /// It was built, but an index of the table that it replaces could not be added to it.
    IndexFailed(String),
    /// It was built.
    Loaded(T),
}

/// What became of a source.
pub enum SourceReport<W: Wiring> {
    /// It could not be built.
    Failed(String),
    /// It was built: the control of each of its outputs, the task that moves its events and the
    /// task that runs it.
    Built { controls: Vec<(Option<String>, W::Control)>, pump: W::Task, server: W::Task },
}

/// The controls of the outputs of a transform.
pub enum TransformControls<W: Wiring> {
    /// A transform that works on one batch after the other: an output for each port.
    Synchronous(Vec<(Option<String>, W::Control)>),
    /// A transform that works on the stream as a whole: the default output only.
    Task(W::Control),
}

/// What became of a transform.
pub enum TransformReport<W: Wiring> {
    /// The work of building it panicked.
    Panicked(String),
    /// It could not be built.
    Failed(String),
    /// It was built.
    Built { sender: W::Sender, controls: TransformControls<W>, task: W::Task },
}

/// What became of all transforms.
pub enum TransformReports<W: Wiring> {
    /// Some schema could not be worked out, and no transform was built.
    SchemaFailed,
    /// What became of each.
    Built(Vec<TransformReport<W>>),
}

/// A sink that was built.
pub struct BuiltSink<W: Wiring> {
    /// The sending half of the buffer that was built for it. There is none where a buffer was kept
    /// for the sink, which is used instead.
    pub sender: Option<W::Sender>,
    pub task: W::Task,
    pub healthcheck: W::Task,
    pub trigger: W::Trigger,
}

/// What became of a sink: where its inputs do not meet what it expects, and whether it was built.
pub struct SinkReport<W: Wiring> {
    pub expectations: Vec<String>,
    pub built: Result<BuiltSink<W>, String>,
}

// ---------------------------------------------------------------------------------------------
// The model.
// ---------------------------------------------------------------------------------------------

/// The buffer in front of a component, and what it is filled from.
pub type InputEntry<S> = (S, Vec<OutputId>);

/// What each component is fed through, by the names of outputs.
pub open spec fn fed<S>(inputs: Seq<(Seq<char>, InputEntry<S>)>) -> Seq<
    (Seq<char>, (S, Seq<OutputIdView>)),
> {
    inputs.map_values(
        |e: (Seq<char>, InputEntry<S>)| -> (Seq<char>, (S, Seq<OutputIdView>))
            { (e.0, (e.1.0, views(e.1.1@))) },
    )
}

/// The pieces that have been put together so far.
#[verifier::ext_equal]
pub struct BuilderView<W: Wiring> {
    pub errors: Seq<Seq<char>>,
    pub outputs: Seq<(OutputIdView, W::Control)>,
    pub tasks: Seq<(Seq<char>, W::Task)>,
    pub source_tasks: Seq<(Seq<char>, W::Task)>,
    pub buffers: Seq<(Seq<char>, (W::Sender, W::Receiver))>,
    pub inputs: Seq<(Seq<char>, (W::Sender, Seq<OutputIdView>))>,
    pub healthchecks: Seq<(Seq<char>, W::Task)>,
    pub detach_triggers: Seq<(Seq<char>, W::Trigger)>,
}

/// Nothing yet but the buffers that are kept.
pub open spec fn no_pieces<W: Wiring>(
    buffers: Seq<(Seq<char>, (W::Sender, W::Receiver))>,
) -> BuilderView<W> {
    BuilderView {
        errors: Seq::empty(),
        outputs: Seq::empty(),
        tasks: Seq::empty(),
        source_tasks: Seq::empty(),
        buffers,
        inputs: Seq::empty(),
        healthchecks: Seq::empty(),
        detach_triggers: Seq::empty(),
    }
}

/// The controls of a component, under the names of its outputs.
pub open spec fn output_entries<C>(key: Seq<char>, controls: Seq<(Option<String>, C)>) -> Seq<
    (OutputIdView, C),
> {
    controls.map_values(
        |e: (Option<String>, C)|
            (OutputIdView { component: key, port: opt_text(e.0) }, e.1),
    )
}

/// The pieces with what became of an enrichment table.
pub open spec fn with_table<W: Wiring, T>(
    pieces: BuilderView<W>,
    name: Seq<char>,
    report: TableReport<T>,
) -> BuilderView<W> {
    match report {
        TableReport::Failed(error) => BuilderView {
            errors: pieces.errors.push(component_error("Enrichment Table"@, name, error@)),
            ..pieces
        },
        _ => pieces,
    }
}

/// The pieces with what became of a source.
pub open spec fn with_source<W: Wiring>(
    pieces: BuilderView<W>,
    key: Seq<char>,
    report: SourceReport<W>,
) -> BuilderView<W> {
    match report {
        SourceReport::Failed(error) => BuilderView {
            errors: pieces.errors.push(component_error("Source"@, key, error@)),
            ..pieces
        },
        SourceReport::Built { controls, pump, server } => BuilderView {
            outputs: extended(pieces.outputs, output_entries(key, controls@)),
            tasks: upsert(pieces.tasks, key, pump),
            source_tasks: upsert(pieces.source_tasks, key, server),
            ..pieces
        },
    }
}

/// The controls of a transform, under the names of its outputs.
pub open spec fn transform_outputs<W: Wiring>(
    key: Seq<char>,
    controls: TransformControls<W>,
) -> Seq<(OutputIdView, W::Control)> {
    match controls {
        TransformControls::Synchronous(ports) => output_entries(key, ports@),
        TransformControls::Task(control) => seq![
            (OutputIdView { component: key, port: None }, control),
        ],
    }
}

/// The pieces with what became of a transform.
pub open spec fn with_transform<W: Wiring>(
    pieces: BuilderView<W>,
    key: Seq<char>,
    inputs: Seq<OutputIdView>,
    report: TransformReport<W>,
) -> BuilderView<W> {
    match report {
        TransformReport::Panicked(error) => BuilderView {
            errors: pieces.errors.push(
                component_error("Transform"@, key, "task panicked: "@ + error@),
            ),
            ..pieces
        },
        TransformReport::Failed(error) => BuilderView {
            errors: pieces.errors.push(component_error("Transform"@, key, error@)),
            ..pieces
        },
        TransformReport::Built { sender, controls, task } => BuilderView {
            inputs: upsert(pieces.inputs, key, (sender, inputs)),
            outputs: extended(pieces.outputs, transform_outputs(key, controls)),
            tasks: upsert(pieces.tasks, key, task),
            ..pieces
        },
    }
}

/// What a sink is fed through: the buffer that was kept for it, else the one that was built.
pub open spec fn sink_sender<S, R>(kept: Option<(S, R)>, built: Option<S>) -> S {
    match kept {
        Some(buffer) => buffer.0,
        None => built->0,
    }
}

/// The pieces with what became of a sink. The buffer that was kept for it is used up, whether it
/// could be built or not.
pub open spec fn with_sink<W: Wiring>(
    pieces: BuilderView<W>,
    key: Seq<char>,
    inputs: Seq<OutputIdView>,
    report: SinkReport<W>,
) -> BuilderView<W> {
    let errors = pieces.errors + texts(report.expectations@);
    let kept = lookup(pieces.buffers, key);
    let buffers = without(pieces.buffers, key);
    match report.built {
        Err(error) => BuilderView {
            errors: errors.push(component_error("Sink"@, key, error@)),
            buffers,
            ..pieces
        },
        Ok(sink) => BuilderView {
            errors,
            buffers,
            inputs: upsert(pieces.inputs, key, (sink_sender(kept, sink.sender), inputs)),
            healthchecks: upsert(pieces.healthchecks, key, sink.healthcheck),
            tasks: upsert(pieces.tasks, key, sink.task),
            detach_triggers: upsert(pieces.detach_triggers, key, sink.trigger),
            ..pieces
        },
    }
}

/// The pieces with what became of each of a list of sources.
pub open spec fn with_sources<W: Wiring>(
    pieces: BuilderView<W>,
    keys: Seq<Seq<char>>,
    reports: Seq<SourceReport<W>>,
) -> BuilderView<W>
    decreases reports.len(),
{
    if reports.len() == 0 {
        pieces
    } else {
        with_source(
            with_sources(pieces, keys, reports.drop_last()),
            keys[reports.len() - 1],
            reports.last(),
        )
    }
}

/// The pieces with what became of each of a list of transforms.
pub open spec fn with_transforms<W: Wiring>(
    pieces: BuilderView<W>,
    transforms: Seq<(Seq<char>, Seq<OutputIdView>)>,
    reports: Seq<TransformReport<W>>,
) -> BuilderView<W>
    decreases reports.len(),
{
    if reports.len() == 0 {
        pieces
    } else {
        let at = transforms[reports.len() - 1];
        with_transform(
            with_transforms(pieces, transforms, reports.drop_last()),
            at.0,
            at.1,
            reports.last(),
        )
    }
}

/// The pieces with what became of each of a list of sinks.
pub open spec fn with_sinks<W: Wiring>(
    pieces: BuilderView<W>,
    sinks: Seq<(Seq<char>, Seq<OutputIdView>)>,
    reports: Seq<SinkReport<W>>,
) -> BuilderView<W>
    decreases reports.len(),
{
    if reports.len() == 0 {
        pieces
    } else {
        let at = sinks[reports.len() - 1];
        with_sink(with_sinks(pieces, sinks, reports.drop_last()), at.0, at.1, reports.last())
    }
}

/// Builds the pieces of a topology that a configuration needs anew.
pub struct Builder<'a, W: Wiring> {
    pub config: &'a Config<W>,
    pub diff: &'a ConfigDiff,
    pub errors: Vec<String>,
    pub outputs: KeyedMap<OutputId, W::Control>,
    pub tasks: ComponentMap<W::Task>,
    pub source_tasks: ComponentMap<W::Task>,
    pub buffers: KeyedMap<ComponentKey, (W::Sender, W::Receiver)>,
    pub inputs: ComponentMap<InputEntry<W::Sender>>,
    pub healthchecks: ComponentMap<W::Task>,
    pub detach_triggers: ComponentMap<W::Trigger>,
    pub extra_context: W::Context,
    pub utilization_emitter: Option<W::Emitter>,
    pub utilization_registry: W::Registry,
}

impl<W: Wiring> View for Builder<'_, W> {
    type V = BuilderView<W>;

    open spec fn view(&self) -> BuilderView<W> {
        BuilderView {
            errors: texts(self.errors@),
            outputs: self.outputs@,
            tasks: self.tasks@,
            source_tasks: self.source_tasks@,
            buffers: self.buffers@,
            inputs: fed(self.inputs@),
            healthchecks: self.healthchecks@,
            detach_triggers: self.detach_triggers@,
        }
    }
}

/// What stays the same while pieces are added.
pub open spec fn same_frame<W: Wiring>(a: Builder<'_, W>, b: Builder<'_, W>) -> bool {
    &&& a.config == b.config
    &&& a.diff == b.diff
    &&& a.extra_context == b.extra_context
    &&& a.utilization_emitter == b.utilization_emitter
    &&& a.utilization_registry == b.utilization_registry
}

/// Filing what a component is fed through commutes with looking at it by the names of outputs.
proof fn lemma_fed<S>(
    inputs: Seq<(Seq<char>, InputEntry<S>)>,
    key: Seq<char>,
    sender: S,
    ids: Vec<OutputId>,
)
    requires
        distinct_keys(inputs),
    ensures
        fed(upsert(inputs, key, (sender, ids))) == upsert(fed(inputs), key, (sender, views(ids@))),
{
    lemma_slot_mapped(inputs, fed(inputs), key);
    assert(fed(upsert(inputs, key, (sender, ids))) =~= upsert(
        fed(inputs),
        key,
        (sender, views(ids@)),
    ));
}

/// Files the controls of a component under the names of its outputs.
fn name_outputs<C>(key: &ComponentKey, controls: Vec<(Option<String>, C)>) -> (outputs: Vec<
    (OutputId, C),
>)
    ensures
        texted(outputs@) == output_entries(key@, controls@),
{
    let ghost all = controls@;
    let mut outputs: Vec<(OutputId, C)> = Vec::new();
    for control in it: controls
        invariant
            it.seq() == all,
            outputs@.len() == it.index(),
            forall|j: int|
                0 <= j < it.index() ==> (#[trigger] outputs@[j]).0@ == (OutputIdView {
                    component: key@,
                    port: opt_text(all[j].0),
                }) && outputs@[j].1 == all[j].1,
    {
        outputs.push((OutputId { component: key.clone(), port: control.0 }, control.1));
    }
    assert(texted(outputs@) =~= output_entries(key@, all));
    outputs
}

impl<'a, W: Wiring> Builder<'a, W> {
    /// Starts with nothing built. Where no registry is passed on, a new one is made along with
    /// what sends its values; else the one that is passed on is used again.
    pub fn new<F: FnOnce() -> (W::Emitter, W::Registry)>(
        config: &'a Config<W>,
        diff: &'a ConfigDiff,
        buffers: KeyedMap<ComponentKey, (W::Sender, W::Receiver)>,
        extra_context: W::Context,
        utilization_registry: Option<W::Registry>,
        fresh: F,
    ) -> (builder: Self)
        requires
            call_requires(fresh, ()),
        ensures
            builder@ == no_pieces::<W>(buffers@),
            builder.config == config,
            builder.diff == diff,
            builder.extra_context == extra_context,
            match utilization_registry {
                Some(registry) => builder.utilization_emitter is None
                    && builder.utilization_registry == registry,
                None => builder.utilization_emitter is Some && call_ensures(
                    fresh,
                    (),
                    (builder.utilization_emitter->0, builder.utilization_registry),
                ),
            },
    {
        let (emitter, registry) = match utilization_registry {
            Some(registry) => (None, registry),
            None => {
                let (emitter, registry) = fresh();
                (Some(emitter), registry)
            },
        };
        let builder = Builder {
            config,
            diff,
            errors: Vec::new(),
            outputs: KeyedMap::new(),
            tasks: ComponentMap::new(),
            source_tasks: ComponentMap::new(),
            buffers,
            inputs: ComponentMap::new(),
            healthchecks: ComponentMap::new(),
            detach_triggers: ComponentMap::new(),
            extra_context,
            utilization_emitter: emitter,
            utilization_registry: registry,
        };
        assert(builder@ =~= no_pieces::<W>(buffers@));
        builder
    }

    /// Notes what is wrong.
    pub(crate) fn note(&mut self, error: String)
        ensures
            final(self)@ == (BuilderView { errors: old(self)@.errors.push(error@), ..old(self)@ }),
            same_frame(*final(self), *old(self)),
    {
        self.errors.push(error);
        assert(self@ =~= (BuilderView { errors: old(self)@.errors.push(error@), ..old(self)@ }));
    }

    /// Adds what became of a source.
    fn add_source(&mut self, key: &ComponentKey, report: SourceReport<W>)
        ensures
            final(self)@ == with_source(old(self)@, key@, report),
            same_frame(*final(self), *old(self)),
    {
        match report {
            SourceReport::Failed(error) => {
                self.note(describe_error("Source", key.as_str(), error.as_str()));
            },
            SourceReport::Built { controls, pump, server } => {
                self.outputs.extend_entries(name_outputs(key, controls));
                self.tasks.insert(key.clone(), pump);
                self.source_tasks.insert(key.clone(), server);
            },
        }
        assert(self@ =~= with_source(old(self)@, key@, report));
    }

    /// Adds what became of a transform.
    fn add_transform(
        &mut self,
        key: &ComponentKey,
        inputs: &Vec<OutputId>,
        report: TransformReport<W>,
    )
        ensures
            final(self)@ == with_transform(old(self)@, key@, views(inputs@), report),
            same_frame(*final(self), *old(self)),
    {
        match report {
            TransformReport::Panicked(error) => {
                let cause = "task panicked: ".to_string().concat(error.as_str());
                self.note(describe_error("Transform", key.as_str(), cause.as_str()));
            },
            TransformReport::Failed(error) => {
                self.note(describe_error("Transform", key.as_str(), error.as_str()));
            },
            TransformReport::Built { sender, controls, task } => {
                let ids = clone_ids(inputs);
                self.inputs.insert(key.clone(), (sender, ids));
                proof {
                    lemma_fed(old(self).inputs@, key@, sender, ids);
                }
                let outputs = match controls {
                    TransformControls::Synchronous(ports) => name_outputs(key, ports),
                    TransformControls::Task(control) => {
                        let mut single: Vec<(OutputId, W::Control)> = Vec::new();
                        single.push((OutputId { component: key.clone(), port: None }, control));
                        single
                    },
                };
                assert(texted(outputs@) =~= transform_outputs(key@, controls));
                self.outputs.extend_entries(outputs);
                self.tasks.insert(key.clone(), task);
            },
        }
        assert(self@ =~= with_transform(old(self)@, key@, views(inputs@), report));
    }

    /// Adds what became of a sink.
    fn add_sink(&mut self, key: &ComponentKey, inputs: &Vec<OutputId>, report: SinkReport<W>)
        requires
            lookup(old(self)@.buffers, key@) is Some || has_sender(report),
        ensures
            final(self)@ == with_sink(old(self)@, key@, views(inputs@), report),
            same_frame(*final(self), *old(self)),
    {
        let mut expectations = report.expectations;
        let ghost wrong = expectations@;
        self.errors.append(&mut expectations);
        assert(texts(self.errors@) =~= texts(old(self).errors@) + texts(wrong));
        let kept = self.buffers.take(key);
        match report.built {
            Err(error) => {
                self.note(describe_error("Sink", key.as_str(), error.as_str()));
            },
            Ok(sink) => {
                let sender = match kept {
                    Some((sender, _)) => sender,
                    None => sink.sender.unwrap(),
                };
                let ids = clone_ids(inputs);
                self.inputs.insert(key.clone(), (sender, ids));
                proof {
                    lemma_fed(old(self).inputs@, key@, sender, ids);
                }
                self.healthchecks.insert(key.clone(), sink.healthcheck);
                self.tasks.insert(key.clone(), sink.task);
                self.detach_triggers.insert(key.clone(), sink.trigger);
            },
        }
        assert(self@ =~= with_sink(old(self)@, key@, views(inputs@), report));
    }
}

/// The names of the sources that have to be built.
pub open spec fn source_plan<D: Domain>(config: ConfigView<D>, diff: ConfigDiff) -> Seq<Seq<char>> {
    keys_of(new_source_entries(config, diff))
}

/// The transforms that have to be built, by their names and by what they read from.
pub open spec fn transform_plan<D: Domain>(config: ConfigView<D>, diff: ConfigDiff) -> Seq<
    (Seq<char>, Seq<OutputIdView>),
> {
    only_new(config.transforms, diff.transforms@).map_values(
        |e: (Seq<char>, TransformView<OutputIdView, D>)| (e.0, e.1.inputs),
    )
}

/// The sinks that have to be built, by their names and by what they read from.
pub open spec fn sink_plan<D: Domain>(config: ConfigView<D>, diff: ConfigDiff) -> Seq<
    (Seq<char>, Seq<OutputIdView>),
> {
    new_sink_entries(config, diff).map_values(
        |e: (Seq<char>, SinkView<OutputIdView, D>)| (e.0, e.1.inputs),
    )
}

/// The buffers that are kept for a list of sinks. A buffer is handed out once.
pub open spec fn kept_buffers<B>(
    buffers: Seq<(Seq<char>, B)>,
    sinks: Seq<(Seq<char>, Seq<OutputIdView>)>,
) -> Seq<Option<B>>
    decreases sinks.len(),
{
    if sinks.len() == 0 {
        Seq::empty()
    } else {
        kept_buffers(buffers, sinks.drop_last()).push(
            lookup(buffers_left(buffers, sinks.drop_last()), sinks.last().0),
        )
    }
}

/// The buffers that are left when those of a list of sinks have been handed out.
pub open spec fn buffers_left<B>(
    buffers: Seq<(Seq<char>, B)>,
    sinks: Seq<(Seq<char>, Seq<OutputIdView>)>,
) -> Seq<(Seq<char>, B)>
    decreases sinks.len(),
{
    if sinks.len() == 0 {
        buffers
    } else {
        without(buffers_left(buffers, sinks.drop_last()), sinks.last().0)
    }
}

/// The report comes with the sending half of a buffer, where the sink was built.
pub open spec fn has_sender<W: Wiring>(report: SinkReport<W>) -> bool {
    report.built matches Ok(sink) ==> sink.sender is Some
}

/// Every sink that was built has a buffer: one that was kept for it, or one that was built.
pub open spec fn all_buffered<W: Wiring>(
    buffers: Seq<(Seq<char>, (W::Sender, W::Receiver))>,
    sinks: Seq<(Seq<char>, Seq<OutputIdView>)>,
    reports: Seq<SinkReport<W>>,
) -> bool {
    forall|i: int|
        0 <= i < reports.len() ==> kept_buffers(buffers, sinks)[i] is Some || has_sender(
            #[trigger] reports[i],
        )
}

/// The pieces with what became of all transforms.
pub open spec fn with_all_transforms<W: Wiring>(
    pieces: BuilderView<W>,
    transforms: Seq<(Seq<char>, Seq<OutputIdView>)>,
    reports: TransformReports<W>,
) -> BuilderView<W> {
    match reports {
        TransformReports::SchemaFailed => pieces,
        TransformReports::Built(list) => with_transforms(pieces, transforms, list@),
    }
}

/// The reports speak of each transform that has to be built, where any was.
pub open spec fn speaks_of<W: Wiring>(reports: TransformReports<W>, count: nat) -> bool {
    match reports {
        TransformReports::SchemaFailed => true,
        TransformReports::Built(list) => list@.len() == count,
    }
}

impl<'a, W: Wiring> Builder<'a, W> {
    /// Adds what became of each source that had to be built.
    pub fn build_sources(&mut self, reports: Vec<SourceReport<W>>)
        requires
            reports@.len() == source_plan(old(self).config@, *old(self).diff).len(),
        ensures
            final(self)@ == with_sources(
                old(self)@,
                source_plan(old(self).config@, *old(self).diff),
                reports@,
            ),
            same_frame(*final(self), *old(self)),
    {
        let sources = new_sources(self.config, self.diff);
        let ghost keys = source_plan(self.config@, *self.diff);
        let ghost all = reports@;
        assert(all.take(0).len() == 0);
        assert forall|i: int| 0 <= i < keys.len() implies (#[trigger] keys[i])
            == sources@[i].0@ by {
            assert(lent(pairs(sources@))[i].0 == sources@[i].0@);
        }
        assert(lent(pairs(sources@)).len() == sources@.len());
        let count: usize = sources.len();
        let mut i: usize = 0;
        for report in it: reports
            invariant
                it.seq() == all,
                i == it.index(),
                count == sources@.len(),
                all.len() == sources@.len(),
                keys.len() == sources@.len(),
                forall|j: int| 0 <= j < keys.len() ==> (#[trigger] keys[j]) == sources@[j].0@,
                self@ == with_sources(old(self)@, keys, all.take(it.index())),
                same_frame(*self, *old(self)),
        {
            proof {
                assert(all.take(i + 1).drop_last() =~= all.take(i as int));
                assert(all.take(i + 1).last() == report);
            }
            self.add_source(&sources[i].0, report);
            i += 1;
        }
        assert(all.take(all.len() as int) =~= all);
    }

    /// Adds what became of each transform that had to be built. Where some schema could not be
    /// worked out nothing is added, and nothing is noted either.
    pub fn build_transforms(&mut self, reports: TransformReports<W>)
        requires
            speaks_of(reports, transform_plan(old(self).config@, *old(self).diff).len()),
        ensures
            final(self)@ == with_all_transforms(
                old(self)@,
                transform_plan(old(self).config@, *old(self).diff),
                reports,
            ),
            same_frame(*final(self), *old(self)),
    {
        match reports {
            TransformReports::SchemaFailed => {},
            TransformReports::Built(list) => {
                let transforms = new_transforms(self.config, self.diff);
                let ghost plan = transform_plan(self.config@, *self.diff);
                let ghost all = list@;
                proof {
                    lemma_transform_plan(self.config@, *self.diff, self.config.transforms@);
                    assert(lent(pairs(transforms@)).len() == transforms@.len());
                    assert forall|j: int| 0 <= j < plan.len() implies (#[trigger] plan[j]) == (
                        transforms@[j].0@,
                        views(transforms@[j].1.inputs@),
                    ) by {
                        assert(lent(pairs(transforms@))[j] == (
                            transforms@[j].0@,
                            *transforms@[j].1,
                        ));
                    }
                }
                assert(all.take(0).len() == 0);
                let count: usize = transforms.len();
                let mut i: usize = 0;
                for report in it: list
                    invariant
                        it.seq() == all,
                        i == it.index(),
                        count == transforms@.len(),
                        all.len() == transforms@.len(),
                        plan.len() == transforms@.len(),
                        forall|j: int|
                            0 <= j < plan.len() ==> (#[trigger] plan[j]) == (
                                transforms@[j].0@,
                                views(transforms@[j].1.inputs@),
                            ),
                        self@ == with_transforms(old(self)@, plan, all.take(it.index())),
                        same_frame(*self, *old(self)),
                {
                    proof {
                        assert(all.take(i + 1).drop_last() =~= all.take(i as int));
                        assert(all.take(i + 1).last() == report);
                        assert(plan[i as int] == (
                            transforms@[i as int].0@,
                            views(transforms@[i as int].1.inputs@),
                        ));
                    }
                    self.add_transform(&transforms[i].0, &transforms[i].1.inputs, report);
                    i += 1;
                }
                assert(all.take(all.len() as int) =~= all);
            },
        }
    }

    /// Adds what became of each sink that had to be built.
    pub fn build_sinks(&mut self, reports: Vec<SinkReport<W>>)
        requires
            reports@.len() == sink_plan(old(self).config@, *old(self).diff).len(),
            all_buffered(
                old(self)@.buffers,
                sink_plan(old(self).config@, *old(self).diff),
                reports@,
            ),
        ensures
            final(self)@ == with_sinks(
                old(self)@,
                sink_plan(old(self).config@, *old(self).diff),
                reports@,
            ),
            same_frame(*final(self), *old(self)),
    {
        let sinks = new_sinks(self.config, self.diff);
        let ghost plan = sink_plan(self.config@, *self.diff);
        let ghost all = reports@;
        proof {
            lemma_sink_plan(sinks@, self.config@, *self.diff);
        }
        assert(all.take(0).len() == 0);
        let count: usize = sinks.len();
        let mut i: usize = 0;
        for report in it: reports
            invariant
                it.seq() == all,
                i == it.index(),
                count == sinks@.len(),
                all.len() == sinks@.len(),
                plan.len() == sinks@.len(),
                forall|j: int|
                    0 <= j < plan.len() ==> (#[trigger] plan[j]) == (
                        sinks@[j].0@,
                        views(sinks@[j].1.inputs@),
                    ),
                self@ == with_sinks(old(self)@, plan, all.take(it.index())),
                all_buffered(old(self)@.buffers, plan, all),
                same_frame(*self, *old(self)),
        {
            proof {
                lemma_buffers_after(old(self)@, plan, all.take(i as int));
                lemma_kept_at(old(self)@.buffers, plan, i as int);
                assert(kept_buffers(old(self)@.buffers, plan)[i as int] is Some || has_sender(
                    all[i as int],
                ));
                assert(all.take(i + 1).drop_last() =~= all.take(i as int));
                assert(all.take(i + 1).last() == report);
                assert(plan[i as int] == (
                    sinks@[i as int].0@,
                    views(sinks@[i as int].1.inputs@),
                ));
            }
            self.add_sink(&sinks[i].0, sinks[i].1.inputs, report);
            i += 1;
        }
        assert(all.take(all.len() as int) =~= all);
    }
}

/// The transforms that have to be built, as they are listed.
proof fn lemma_transform_plan<D: Domain>(
    config: ConfigView<D>,
    diff: ConfigDiff,
    transforms: Seq<(Seq<char>, TransformOuter<OutputId, D>)>,
)
    requires
        config.transforms == viewed(transforms),
    ensures
        transform_plan(config, diff).len() == only_new(transforms, diff.transforms@).len(),
        forall|j: int|
            0 <= j < transform_plan(config, diff).len() ==> (#[trigger] transform_plan(
                config,
                diff,
            )[j]) == (
                only_new(transforms, diff.transforms@)[j].0,
                views(only_new(transforms, diff.transforms@)[j].1.inputs@),
            ),
{
    lemma_only_new_viewed(transforms, diff.transforms@);
    let kept = only_new(transforms, diff.transforms@);
    assert(viewed(kept).len() == kept.len());
    assert forall|j: int| 0 <= j < kept.len() implies (#[trigger] transform_plan(config, diff)[j])
        == (kept[j].0, views(kept[j].1.inputs@)) by {
        assert(viewed(kept)[j] == (kept[j].0, kept[j].1@));
    }
}

/// The sinks that have to be built, as they are listed.
pub proof fn lemma_sink_plan<'b, D: Domain>(
    sinks: Seq<(String, SinkRef<'b, OutputId, D>)>,
    config: ConfigView<D>,
    diff: ConfigDiff,
)
    requires
        viewed(pairs(sinks)) == new_sink_entries(config, diff),
    ensures
        sink_plan(config, diff).len() == sinks.len(),
        forall|j: int|
            0 <= j < sinks.len() ==> (#[trigger] sink_plan(config, diff)[j]) == (
                sinks[j].0@,
                views(sinks[j].1.inputs@),
            ),
{
    assert(viewed(pairs(sinks)).len() == sinks.len());
    assert forall|j: int| 0 <= j < sinks.len() implies (#[trigger] sink_plan(config, diff)[j]) == (
        sinks[j].0@,
        views(sinks[j].1.inputs@),
    ) by {
        assert(viewed(pairs(sinks))[j] == (sinks[j].0@, sinks[j].1@));
    }
}

/// Each sink gets the buffer that is kept under its name, and no buffer is handed out twice: a sink
/// whose name another sink before it has gets none.
pub proof fn law_buffers_are_handed_out_once<B>(
    buffers: Seq<(Seq<char>, B)>,
    sinks: Seq<(Seq<char>, Seq<OutputIdView>)>,
    i: int,
)
    requires
        distinct_keys(buffers),
        0 <= i < sinks.len(),
    ensures
        kept_buffers(buffers, sinks).len() == sinks.len(),
        kept_buffers(buffers, sinks)[i] == (if named_before(sinks, i) {
            None
        } else {
            lookup(buffers, sinks[i].0)
        }),
    decreases sinks.len(),
{
    let front = sinks.drop_last();
    let last = sinks.len() - 1;
    lemma_buffers_left(buffers, front, sinks.last().0);
    lemma_kept_len(buffers, front);
    if i < last {
        law_buffers_are_handed_out_once(buffers, front, i);
        assert(named_before(front, i) == named_before(sinks, i)) by {
            if named_before(sinks, i) {
                let j = choose|j: int| 0 <= j < i && #[trigger] sinks[j].0 == sinks[i].0;
                assert(front[j].0 == front[i].0);
            }
            if named_before(front, i) {
                let j = choose|j: int| 0 <= j < i && #[trigger] front[j].0 == front[i].0;
                assert(sinks[j].0 == sinks[i].0);
            }
        }
    } else {
        assert(named_before(sinks, last) == is_named(front, sinks.last().0)) by {
            if named_before(sinks, last) {
                let j = choose|j: int| 0 <= j < last && #[trigger] sinks[j].0 == sinks[last].0;
                assert(front[j].0 == sinks.last().0);
            }
            if is_named(front, sinks.last().0) {
                let j = choose|j: int|
                    0 <= j < front.len() && #[trigger] front[j].0 == sinks.last().0;
                assert(sinks[j].0 == sinks[last].0);
            }
        }
    }
}

/// A sink before the one at the position has its name.
pub open spec fn named_before(sinks: Seq<(Seq<char>, Seq<OutputIdView>)>, i: int) -> bool {
    exists|j: int| 0 <= j < i && #[trigger] sinks[j].0 == sinks[i].0
}

/// A sink of the list has the name.
spec fn is_named(sinks: Seq<(Seq<char>, Seq<OutputIdView>)>, name: Seq<char>) -> bool {
    exists|j: int| 0 <= j < sinks.len() && #[trigger] sinks[j].0 == name
}

proof fn lemma_kept_len<B>(
    buffers: Seq<(Seq<char>, B)>,
    sinks: Seq<(Seq<char>, Seq<OutputIdView>)>,
)
    ensures
        kept_buffers(buffers, sinks).len() == sinks.len(),
    decreases sinks.len(),
{
    if sinks.len() > 0 {
        lemma_kept_len(buffers, sinks.drop_last());
    }
}

/// The buffer that is kept for a sink, as it is found when its turn comes.
pub proof fn lemma_kept_at<B>(
    buffers: Seq<(Seq<char>, B)>,
    sinks: Seq<(Seq<char>, Seq<OutputIdView>)>,
    i: int,
)
    requires
        0 <= i < sinks.len(),
    ensures
        kept_buffers(buffers, sinks).len() == sinks.len(),
        kept_buffers(buffers, sinks)[i] == lookup(
            buffers_left(buffers, sinks.take(i)),
            sinks[i].0,
        ),
    decreases sinks.len(),
{
    let front = sinks.drop_last();
    lemma_kept_len(buffers, front);
    if i < front.len() {
        lemma_kept_at(buffers, front, i);
        assert(front.take(i) =~= sinks.take(i));
    } else {
        assert(sinks.take(i) =~= front);
    }
}

/// The buffers that are left when sinks have been added.
pub proof fn lemma_buffers_after<W: Wiring>(
    pieces: BuilderView<W>,
    sinks: Seq<(Seq<char>, Seq<OutputIdView>)>,
    reports: Seq<SinkReport<W>>,
)
    requires
        reports.len() <= sinks.len(),
    ensures
        with_sinks(pieces, sinks, reports).buffers == buffers_left(
            pieces.buffers,
            sinks.take(reports.len() as int),
        ),
    decreases reports.len(),
{
    let taken = sinks.take(reports.len() as int);
    if reports.len() > 0 {
        lemma_buffers_after(pieces, sinks, reports.drop_last());
        assert(taken.drop_last() =~= sinks.take(reports.len() - 1));
        assert(taken.last() == sinks[reports.len() - 1]);
    }
}

proof fn lemma_buffers_left<B>(
    buffers: Seq<(Seq<char>, B)>,
    sinks: Seq<(Seq<char>, Seq<OutputIdView>)>,
    name: Seq<char>,
)
    requires
        distinct_keys(buffers),
    ensures
        distinct_keys(buffers_left(buffers, sinks)),
        lookup(buffers_left(buffers, sinks), name) == (if is_named(sinks, name) {
            None
        } else {
            lookup(buffers, name)
        }),
    decreases sinks.len(),
{
    if sinks.len() > 0 {
        let front = sinks.drop_last();
        let last = sinks.len() - 1;
        lemma_buffers_left(buffers, front, name);
        lemma_without(buffers_left(buffers, front), sinks.last().0, name);
        if is_named(front, name) {
            let j = choose|j: int| 0 <= j < front.len() && #[trigger] front[j].0 == name;
            assert(sinks[j].0 == name);
        }
        if sinks.last().0 == name {
            assert(sinks[last].0 == name);
        }
        if is_named(sinks, name) && sinks.last().0 != name {
            let j = choose|j: int| 0 <= j < sinks.len() && #[trigger] sinks[j].0 == name;
            assert(front[j].0 == name);
        }
    }
}

/// A sink for which a buffer was kept is fed through the sending half of that buffer, whatever else
/// was built, and the buffer is kept no longer.
pub proof fn law_kept_buffers_are_used<W: Wiring>(
    pieces: BuilderView<W>,
    sinks: Seq<(Seq<char>, Seq<OutputIdView>)>,
    reports: Seq<SinkReport<W>>,
    i: int,
)
    requires
        distinct_keys(pieces.buffers),
        distinct_keys(pieces.inputs),
        reports.len() == sinks.len(),
        0 <= i < sinks.len(),
        reports[i].built is Ok,
        lookup(pieces.buffers, sinks[i].0) is Some,
        forall|j: int| 0 <= j < sinks.len() && j != i ==> (#[trigger] sinks[j]).0 != sinks[i].0,
    ensures
        lookup(with_sinks(pieces, sinks, reports).inputs, sinks[i].0) == Some(
            ((lookup(pieces.buffers, sinks[i].0)->0).0, sinks[i].1),
        ),
        lookup(with_sinks(pieces, sinks, reports).buffers, sinks[i].0) is None,
{
    lemma_kept_sender(pieces, sinks, reports, i);
    lemma_buffers_after(pieces, sinks, reports);
    assert(sinks.take(reports.len() as int) =~= sinks);
    lemma_buffers_left(pieces.buffers, sinks, sinks[i].0);
}

/// A buffer that no sink has the name of stays.
pub proof fn law_other_buffers_stay<W: Wiring>(
    pieces: BuilderView<W>,
    sinks: Seq<(Seq<char>, Seq<OutputIdView>)>,
    reports: Seq<SinkReport<W>>,
    name: Seq<char>,
)
    requires
        distinct_keys(pieces.buffers),
        reports.len() == sinks.len(),
        forall|j: int| 0 <= j < sinks.len() ==> (#[trigger] sinks[j]).0 != name,
    ensures
        lookup(with_sinks(pieces, sinks, reports).buffers, name) == lookup(pieces.buffers, name),
{
    lemma_buffers_after(pieces, sinks, reports);
    assert(sinks.take(reports.len() as int) =~= sinks);
    lemma_buffers_left(pieces.buffers, sinks, name);
}

proof fn lemma_kept_sender<W: Wiring>(
    pieces: BuilderView<W>,
    sinks: Seq<(Seq<char>, Seq<OutputIdView>)>,
    reports: Seq<SinkReport<W>>,
    i: int,
)
    requires
        distinct_keys(pieces.buffers),
        distinct_keys(pieces.inputs),
        reports.len() <= sinks.len(),
        0 <= i < sinks.len(),
        i < reports.len() ==> reports[i].built is Ok,
        lookup(pieces.buffers, sinks[i].0) is Some,
        forall|j: int| 0 <= j < sinks.len() && j != i ==> (#[trigger] sinks[j]).0 != sinks[i].0,
    ensures
        distinct_keys(with_sinks(pieces, sinks, reports).inputs),
        i < reports.len() ==> lookup(with_sinks(pieces, sinks, reports).inputs, sinks[i].0)
            == Some(((lookup(pieces.buffers, sinks[i].0)->0).0, sinks[i].1)),
    decreases reports.len(),
{
    if reports.len() > 0 {
        let front = reports.drop_last();
        let last = reports.len() - 1;
        let before = with_sinks(pieces, sinks, front);
        lemma_kept_sender(pieces, sinks, front, i);
        if let Ok(sink) = reports.last().built {
            let sender = sink_sender(lookup(before.buffers, sinks[last].0), sink.sender);
            lemma_upsert_lookup(before.inputs, sinks[last].0, (sender, sinks[last].1), sinks[i].0);
            lemma_upsert_distinct(before.inputs, sinks[last].0, (sender, sinks[last].1));
        }
        if last == i {
            lemma_buffers_after(pieces, sinks, front);
            lemma_buffers_left(pieces.buffers, sinks.take(last), sinks[i].0);
            assert(!is_named(sinks.take(last), sinks[i].0));
        }
    }
}

/// How the task that moves the events of a source is named, and which sources report on the process
/// itself: those of its logs and those of its metrics.
pub proof fn law_source_names(
    component_name: String,
    kind: &str,
    id: &str,
    name: String,
    internal: bool,
)
    requires
        call_ensures(pump_task_name, (kind, id), name),
        call_ensures(internal_source, (&component_name,), internal),
    ensures
        name@ == ">> "@ + kind@ + " ("@ + id@ + ", pump) >>"@,
        internal <==> component_name@ == "internal_logs"@ || component_name@ == "internal_metrics"@,
{
}

/// While pieces are added, a builder keeps what it was made with.
pub proof fn law_frame_is_kept<W: Wiring>(before: Builder<'_, W>, after: Builder<'_, W>)
    requires
        same_frame(after, before),
    ensures
        after.config@ == before.config@,
        *after.diff == *before.diff,
        after.extra_context == before.extra_context,
        after.utilization_emitter == before.utilization_emitter,
        after.utilization_registry == before.utilization_registry,
{
}

} // verus!

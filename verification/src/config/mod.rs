//! Configurations: the components that a pipeline is made of and the settings around them.

pub mod compiler;
pub mod files;
pub mod fragments;
pub mod globs;
pub mod loading;

use vstd::prelude::*;

use crate::ordered::{
    distinct_keys, has_key, lemma_slot_mapped, lookup, slot_of, ComponentMap,
};
use crate::text::{clone_opt_text, opt_text};

verus! {

/// The name of a component.
pub type ComponentKey = String;

/// The values that a configuration carries and that nothing here looks into.
pub trait Domain {
    /// The global options.
    type Global;

    /// The options of the API.
    type Api;

    /// The schema options.
    type Schema;

    /// The options of all healthchecks.
    type Healthchecks;

    /// What a source is built from.
    type Source;

    /// What a transform is built from.
    type Transform;

    /// What a sink is built from.
    type Sink;

    /// What an enrichment table is built from.
    type Table;

    /// A unit test whose inputs are still names.
    type Test;

    /// A unit test whose inputs are outputs of components.
    type ResolvedTest;

    /// Where a configuration may come from instead of a file.
    type Provider;

    /// The backends that secrets come from.
    type Secret;

    /// How long a shutdown may take.
    type Grace;
}

/// One output of a component: the default one, or the one behind a named port.
#[derive(Debug, PartialEq, Eq)]
pub struct OutputId {
    pub component: ComponentKey,
    pub port: Option<String>,
}

/// The characters of an output's name.
pub struct OutputIdView {
    pub component: Seq<char>,
    pub port: Option<Seq<char>>,
}

impl View for OutputId {
    type V = OutputIdView;

    open spec fn view(&self) -> OutputIdView {
        OutputIdView { component: self.component@, port: opt_text(self.port) }
    }
}

/// An output as one name: the component, and behind a dot the port, where there is one.
pub open spec fn output_name(id: OutputIdView) -> Seq<char> {
    match id.port {
        Some(port) => id.component + seq!['.'] + port,
        None => id.component,
    }
}

impl Clone for OutputId {
    fn clone(&self) -> (copy: OutputId)
        ensures
            copy == *self,
    {
        OutputId { component: self.component.clone(), port: clone_opt_text(&self.port) }
    }
}

impl OutputId {
    /// The output as one name.
    pub fn to_string(&self) -> (name: String)
        ensures
            name@ == output_name(self@),
    {
        match &self.port {
            Some(port) => {
                proof {
                    reveal_strlit(".");
                    assert("."@ =~= seq!['.']);
                }
                self.component.clone().concat(".").concat(port.as_str())
            },
            None => self.component.clone(),
        }
    }
}

/// Copies a list of outputs.
pub fn clone_ids(ids: &Vec<OutputId>) -> (copy: Vec<OutputId>)
    ensures
        copy@ == ids@,
{
    let mut copy: Vec<OutputId> = Vec::new();
    let mut i: usize = 0;
    while i < ids.len()
        invariant
            i <= ids.len(),
            copy@ == ids@.take(i as int),
        decreases ids.len() - i,
    {
        copy.push(ids[i].clone());
        i += 1;
        assert(copy@ =~= ids@.take(i as int));
    }
    assert(ids@.take(ids@.len() as int) =~= ids@);
    copy
}

/// What each value of a list stands for.
pub open spec fn views<T: View>(values: Seq<T>) -> Seq<T::V> {
    values.map_values(|t: T| t@)
}

/// What each value of a map stands for.
pub open spec fn viewed<T: View>(entries: Seq<(Seq<char>, T)>) -> Seq<(Seq<char>, T::V)> {
    entries.map_values(|e: (Seq<char>, T)| (e.0, e.1@))
}

/// What is filed under a name, seen through what each value stands for.
pub proof fn lemma_viewed_lookup<T: View>(entries: Seq<(Seq<char>, T)>, key: Seq<char>)
    requires
        distinct_keys(viewed(entries)),
    ensures
        distinct_keys(entries),
        lookup(viewed(entries), key) == (match lookup(entries, key) {
            Some(value) => Some(value@),
            None => None,
        }),
{
    let mapped = viewed(entries);
    assert forall|i: int, j: int| 0 <= i < j < entries.len() implies (#[trigger] entries[i]).0 != (
    #[trigger] entries[j]).0 by {
        assert(mapped[i].0 != mapped[j].0);
    }
    lemma_slot_mapped(entries, mapped, key);
    if has_key(entries, key) {
        let k = slot_of(entries, key);
        assert(entries[k].0 == key);
        assert(mapped[k] == (entries[k].0, entries[k].1@));
    }
}

/// A source.
pub struct SourceOuter<D: Domain> {
    pub inner: D::Source,
}

/// A sink and what it reads from.
pub struct SinkOuter<T, D: Domain> {
    pub inputs: Vec<T>,
    pub inner: D::Sink,
}

#[verifier::ext_equal]
pub struct SinkView<T, D: Domain> {
    pub inputs: Seq<T>,
    pub inner: D::Sink,
}

impl<T: View, D: Domain> View for SinkOuter<T, D> {
    type V = SinkView<T::V, D>;

    open spec fn view(&self) -> SinkView<T::V, D> {
        SinkView { inputs: views(self.inputs@), inner: self.inner }
    }
}

impl<T, D: Domain> SinkOuter<T, D> {
    /// The same sink, reading from other inputs.
    pub fn with_inputs<U>(self, inputs: Vec<U>) -> (sink: SinkOuter<U, D>)
        ensures
            sink.inputs == inputs,
            sink.inner == self.inner,
    {
        SinkOuter { inputs, inner: self.inner }
    }
}

/// A transform, what it reads from, what kind it is and the ports that it declares (`None` is
/// the default output).
pub struct TransformOuter<T, D: Domain> {
    pub inputs: Vec<T>,
    pub component_name: String,
    pub ports: Vec<Option<String>>,
    pub inner: D::Transform,
}

#[verifier::ext_equal]
pub struct TransformView<T, D: Domain> {
    pub inputs: Seq<T>,
    pub component_name: Seq<char>,
    pub ports: Seq<Option<Seq<char>>>,
    pub inner: D::Transform,
}

/// The characters of each port.
pub open spec fn port_texts(ports: Seq<Option<String>>) -> Seq<Option<Seq<char>>> {
    ports.map_values(|p: Option<String>| opt_text(p))
}

impl<T: View, D: Domain> View for TransformOuter<T, D> {
    type V = TransformView<T::V, D>;

    open spec fn view(&self) -> TransformView<T::V, D> {
        TransformView {
            inputs: views(self.inputs@),
            component_name: self.component_name@,
            ports: port_texts(self.ports@),
            inner: self.inner,
        }
    }
}

impl<T, D: Domain> TransformOuter<T, D> {
    /// The same transform, reading from other inputs.
    pub fn with_inputs<U>(self, inputs: Vec<U>) -> (transform: TransformOuter<U, D>)
        ensures
            transform.inputs == inputs,
            transform.component_name == self.component_name,
            transform.ports == self.ports,
            transform.inner == self.inner,
    {
        TransformOuter {
            inputs,
            component_name: self.component_name,
            ports: self.ports,
            inner: self.inner,
        }
    }
}

/// An enrichment table. It may be fed as a sink and may be read as a source, each under a name of
/// its own; the sink reads from the inputs of the table.
pub struct EnrichmentTableOuter<T, D: Domain> {
    pub inputs: Vec<T>,
    pub sink: Option<(ComponentKey, D::Sink)>,
    pub source: Option<(ComponentKey, SourceOuter<D>)>,
    pub inner: D::Table,
}

#[verifier::ext_equal]
pub struct TableView<T, D: Domain> {
    pub inputs: Seq<T>,
    pub sink: Option<(Seq<char>, D::Sink)>,
    pub source: Option<(Seq<char>, SourceOuter<D>)>,
    pub inner: D::Table,
}

/// A named value, by the characters of its name.
pub open spec fn named<V>(entry: Option<(String, V)>) -> Option<(Seq<char>, V)> {
    match entry {
        Some(e) => Some((e.0@, e.1)),
        None => None,
    }
}

impl<T: View, D: Domain> View for EnrichmentTableOuter<T, D> {
    type V = TableView<T::V, D>;

    open spec fn view(&self) -> TableView<T::V, D> {
        TableView {
            inputs: views(self.inputs@),
            sink: named(self.sink),
            source: named(self.source),
            inner: self.inner,
        }
    }
}

impl<T, D: Domain> EnrichmentTableOuter<T, D> {
    /// The same table, reading from other inputs.
    pub fn with_inputs<U>(self, inputs: Vec<U>) -> (table: EnrichmentTableOuter<U, D>)
        ensures
            table.inputs == inputs,
            table.sink == self.sink,
            table.source == self.source,
            table.inner == self.inner,
    {
        EnrichmentTableOuter { inputs, sink: self.sink, source: self.source, inner: self.inner }
    }
}

/// A configuration as it is written down: inputs are names, and may be patterns.
pub struct ConfigBuilder<D: Domain> {
    pub global: D::Global,
    pub api: D::Api,
    pub schema: D::Schema,
    pub healthchecks: D::Healthchecks,
    pub enrichment_tables: ComponentMap<EnrichmentTableOuter<String, D>>,
    pub sources: ComponentMap<SourceOuter<D>>,
    pub sinks: ComponentMap<SinkOuter<String, D>>,
    pub transforms: ComponentMap<TransformOuter<String, D>>,
    pub tests: Vec<D::Test>,
    pub provider: Option<D::Provider>,
    pub secret: D::Secret,
    pub graceful_shutdown_duration: D::Grace,
    pub allow_empty: bool,
}

impl<D: Domain> Default for ConfigBuilder<D> where
    D::Global: Default,
    D::Api: Default,
    D::Schema: Default,
    D::Healthchecks: Default,
    D::Secret: Default,
    D::Grace: Default,
 {
    /// A configuration without components, of settings that are those of their types.
    fn default() -> (builder: Self)
        ensures
            call_ensures(D::Global::default, (), builder.global),
            call_ensures(D::Api::default, (), builder.api),
            call_ensures(D::Schema::default, (), builder.schema),
            call_ensures(D::Healthchecks::default, (), builder.healthchecks),
            builder.enrichment_tables@.len() == 0,
            builder.sources@.len() == 0,
            builder.sinks@.len() == 0,
            builder.transforms@.len() == 0,
            builder.tests@.len() == 0,
            builder.provider is None,
            call_ensures(D::Secret::default, (), builder.secret),
            call_ensures(D::Grace::default, (), builder.graceful_shutdown_duration),
            !builder.allow_empty,
    {
        ConfigBuilder {
            global: D::Global::default(),
            api: D::Api::default(),
            schema: D::Schema::default(),
            healthchecks: D::Healthchecks::default(),
            enrichment_tables: ComponentMap::new(),
            sources: ComponentMap::new(),
            sinks: ComponentMap::new(),
            transforms: ComponentMap::new(),
            tests: Vec::new(),
            provider: None,
            secret: D::Secret::default(),
            graceful_shutdown_duration: D::Grace::default(),
            allow_empty: false,
        }
    }
}

#[verifier::ext_equal]
pub struct ConfigBuilderView<D: Domain> {
    pub global: D::Global,
    pub api: D::Api,
    pub schema: D::Schema,
    pub healthchecks: D::Healthchecks,
    pub enrichment_tables: Seq<(Seq<char>, TableView<Seq<char>, D>)>,
    pub sources: Seq<(Seq<char>, SourceOuter<D>)>,
    pub sinks: Seq<(Seq<char>, SinkView<Seq<char>, D>)>,
    pub transforms: Seq<(Seq<char>, TransformView<Seq<char>, D>)>,
    pub tests: Seq<D::Test>,
    pub provider: Option<D::Provider>,
    pub secret: D::Secret,
    pub graceful_shutdown_duration: D::Grace,
    pub allow_empty: bool,
}

impl<D: Domain> View for ConfigBuilder<D> {
    type V = ConfigBuilderView<D>;

    open spec fn view(&self) -> ConfigBuilderView<D> {
        ConfigBuilderView {
            global: self.global,
            api: self.api,
            schema: self.schema,
            healthchecks: self.healthchecks,
            enrichment_tables: viewed(self.enrichment_tables@),
            sources: self.sources@,
            sinks: viewed(self.sinks@),
            transforms: viewed(self.transforms@),
            tests: self.tests@,
            provider: self.provider,
            secret: self.secret,
            graceful_shutdown_duration: self.graceful_shutdown_duration,
            allow_empty: self.allow_empty,
        }
    }
}

/// A configuration that can be built: inputs are outputs of components.
pub struct Config<D: Domain> {
    pub global: D::Global,
    pub api: D::Api,
    pub schema: D::Schema,
    pub healthchecks: D::Healthchecks,
    pub enrichment_tables: ComponentMap<EnrichmentTableOuter<OutputId, D>>,
    pub sources: ComponentMap<SourceOuter<D>>,
    pub sinks: ComponentMap<SinkOuter<OutputId, D>>,
    pub transforms: ComponentMap<TransformOuter<OutputId, D>>,
    pub tests: Vec<D::ResolvedTest>,
    pub secret: D::Secret,
    pub graceful_shutdown_duration: D::Grace,
}

#[verifier::ext_equal]
pub struct ConfigView<D: Domain> {
    pub global: D::Global,
    pub api: D::Api,
    pub schema: D::Schema,
    pub healthchecks: D::Healthchecks,
    pub enrichment_tables: Seq<(Seq<char>, TableView<OutputIdView, D>)>,
    pub sources: Seq<(Seq<char>, SourceOuter<D>)>,
    pub sinks: Seq<(Seq<char>, SinkView<OutputIdView, D>)>,
    pub transforms: Seq<(Seq<char>, TransformView<OutputIdView, D>)>,
    pub tests: Seq<D::ResolvedTest>,
    pub secret: D::Secret,
    pub graceful_shutdown_duration: D::Grace,
}

impl<D: Domain> View for Config<D> {
    type V = ConfigView<D>;

    open spec fn view(&self) -> ConfigView<D> {
        ConfigView {
            global: self.global,
            api: self.api,
            schema: self.schema,
            healthchecks: self.healthchecks,
            enrichment_tables: viewed(self.enrichment_tables@),
            sources: self.sources@,
            sinks: viewed(self.sinks@),
            transforms: viewed(self.transforms@),
            tests: self.tests@,
            secret: self.secret,
            graceful_shutdown_duration: self.graceful_shutdown_duration,
        }
    }
}

// ---------------------------------------------------------------------------------------------
// What a configuration stands for.
// ---------------------------------------------------------------------------------------------

/// Outputs are told by the names of their components and of their ports, one by one.
pub open spec fn tells_outputs(shown: Seq<OutputIdView>, ids: Seq<OutputId>) -> bool {
    &&& shown.len() == ids.len()
    &&& forall|k: int|
        0 <= k < ids.len() ==> (#[trigger] shown[k]).component == ids[k].component@ && (
        match ids[k].port {
            Some(port) => shown[k].port == Some(port@),
            None => shown[k].port is None,
        })
}

/// Names are told by their characters, one by one.
pub open spec fn tells_names(shown: Seq<Seq<char>>, names: Seq<String>) -> bool {
    shown.len() == names.len() && forall|k: int|
        0 <= k < names.len() ==> #[trigger] shown[k] == names[k]@
}

/// What a configuration that can be built stands for holds all of it: every component under its
/// name, with all its inputs, and every setting.
pub proof fn law_config_stands_for_all<D: Domain>(config: Config<D>)
    ensures
        config@.global == config.global,
        config@.api == config.api,
        config@.schema == config.schema,
        config@.healthchecks == config.healthchecks,
        config@.secret == config.secret,
        config@.graceful_shutdown_duration == config.graceful_shutdown_duration,
        config@.tests == config.tests@,
        config@.sources == config.sources@,
        config@.sinks.len() == config.sinks@.len(),
        forall|i: int|
            0 <= i < config.sinks@.len() ==> {
                let (key, sink) = config.sinks@[i];
                &&& (#[trigger] config@.sinks[i]).0 == key
                &&& config@.sinks[i].1.inner == sink.inner
                &&& tells_outputs(config@.sinks[i].1.inputs, sink.inputs@)
            },
        config@.transforms.len() == config.transforms@.len(),
        forall|i: int|
            0 <= i < config.transforms@.len() ==> {
                let (key, transform) = config.transforms@[i];
                &&& (#[trigger] config@.transforms[i]).0 == key
                &&& config@.transforms[i].1.inner == transform.inner
                &&& config@.transforms[i].1.component_name == transform.component_name@
                &&& tells_outputs(config@.transforms[i].1.inputs, transform.inputs@)
            },
        config@.enrichment_tables.len() == config.enrichment_tables@.len(),
        forall|i: int|
            0 <= i < config.enrichment_tables@.len() ==> {
                let (key, table) = config.enrichment_tables@[i];
                let shown = (#[trigger] config@.enrichment_tables[i]).1;
                &&& config@.enrichment_tables[i].0 == key
                &&& shown.inner == table.inner
                &&& tells_outputs(shown.inputs, table.inputs@)
                &&& match table.sink {
                    Some((name, sink)) => shown.sink == Some((name@, sink)),
                    None => shown.sink is None,
                }
                &&& match table.source {
                    Some((name, source)) => shown.source == Some((name@, source)),
                    None => shown.source is None,
                }
            },
{
}

/// What a configuration as it is written down stands for holds all of it.
pub proof fn law_builder_stands_for_all<D: Domain>(builder: ConfigBuilder<D>)
    ensures
        builder@.global == builder.global,
        builder@.api == builder.api,
        builder@.schema == builder.schema,
        builder@.healthchecks == builder.healthchecks,
        builder@.provider == builder.provider,
        builder@.secret == builder.secret,
        builder@.graceful_shutdown_duration == builder.graceful_shutdown_duration,
        builder@.allow_empty == builder.allow_empty,
        builder@.tests == builder.tests@,
        builder@.sources == builder.sources@,
        builder@.sinks.len() == builder.sinks@.len(),
        forall|i: int|
            0 <= i < builder.sinks@.len() ==> {
                let (key, sink) = builder.sinks@[i];
                &&& (#[trigger] builder@.sinks[i]).0 == key
                &&& builder@.sinks[i].1.inner == sink.inner
                &&& tells_names(builder@.sinks[i].1.inputs, sink.inputs@)
            },
        builder@.transforms.len() == builder.transforms@.len(),
        forall|i: int|
            0 <= i < builder.transforms@.len() ==> {
                let (key, transform) = builder.transforms@[i];
                let shown = (#[trigger] builder@.transforms[i]).1;
                &&& builder@.transforms[i].0 == key
                &&& shown.inner == transform.inner
                &&& shown.component_name == transform.component_name@
                &&& tells_names(shown.inputs, transform.inputs@)
                &&& shown.ports.len() == transform.ports@.len()
                &&& forall|p: int|
                    0 <= p < transform.ports@.len() ==> match transform.ports@[p] {
                        Some(port) => #[trigger] shown.ports[p] == Some(port@),
                        None => shown.ports[p] is None,
                    }
            },
        builder@.enrichment_tables.len() == builder.enrichment_tables@.len(),
        forall|i: int|
            0 <= i < builder.enrichment_tables@.len() ==> {
                let (key, table) = builder.enrichment_tables@[i];
                let shown = (#[trigger] builder@.enrichment_tables[i]).1;
                &&& builder@.enrichment_tables[i].0 == key
                &&& shown.inner == table.inner
                &&& tells_names(shown.inputs, table.inputs@)
                &&& match table.sink {
                    Some((name, sink)) => shown.sink == Some((name@, sink)),
                    None => shown.sink is None,
                }
                &&& match table.source {
                    Some((name, source)) => shown.source == Some((name@, source)),
                    None => shown.source is None,
                }
            },
{
}

/// An output is written as its component, and behind a dot its port, where it has one.
pub proof fn law_output_is_written(id: OutputId, name: String)
    requires
        call_ensures(OutputId::to_string, (&id,), name),
    ensures
        match id.port {
            Some(port) => name@ == id.component@ + seq!['.'] + port@,
            None => name@ == id.component@,
        },
{
}

/// Giving a component other inputs changes its inputs, and nothing else of it.
pub proof fn law_other_inputs<T, U, D: Domain>(
    inputs: Vec<U>,
    sink: SinkOuter<T, D>,
    other_sink: SinkOuter<U, D>,
    transform: TransformOuter<T, D>,
    other_transform: TransformOuter<U, D>,
    table: EnrichmentTableOuter<T, D>,
    other_table: EnrichmentTableOuter<U, D>,
)
    requires
        call_ensures(SinkOuter::<T, D>::with_inputs::<U>, (sink, inputs), other_sink),
        call_ensures(
            TransformOuter::<T, D>::with_inputs::<U>,
            (transform, inputs),
            other_transform,
        ),
        call_ensures(EnrichmentTableOuter::<T, D>::with_inputs::<U>, (table, inputs), other_table),
    ensures
        other_sink.inputs@ == inputs@,
        other_sink.inner == sink.inner,
        other_transform.inputs@ == inputs@,
        other_transform.component_name@ == transform.component_name@,
        other_transform.ports@ == transform.ports@,
        other_transform.inner == transform.inner,
        other_table.inputs@ == inputs@,
        other_table.sink == table.sink,
        other_table.source == table.source,
        other_table.inner == table.inner,
{
}

} // verus!

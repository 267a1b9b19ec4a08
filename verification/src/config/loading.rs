//! From what was read of files and directories to a configuration as it is written down.

use vstd::prelude::*;

use crate::config::compiler::lemma_extended_viewed;
use crate::config::files::{component_hints, hints, ComponentHint};
use crate::config::fragments::{
    all_file_errors, all_tables, append_errors, collect_tables, file_is_named, held_by,
    holds_tables, law_components, law_one_more_file, merge_components,
    merge_root, merged_components, merged_root, names_differ, table_entries, table_within,
    tables_within, FileResult,
};
use crate::config::{
    lemma_viewed_lookup, viewed, ConfigBuilder, ConfigBuilderView, Domain, EnrichmentTableOuter,
    SinkOuter, SourceOuter, TransformOuter,
};
use crate::keyed::KeyedMap;
use crate::ordered::{
    distinct_keys, extended, lemma_extended_distinct, lemma_extended_lookup, lookup, pairs,
    ComponentMap,
};
use crate::text::texts;

verus! {

/// Loads a configuration.
pub struct ConfigBuilderLoader<D: Domain> {
    pub builder: ConfigBuilder<D>,
    pub secrets: KeyedMap<String, String>,
    pub interpolate_env: bool,
}

impl<D: Domain> ConfigBuilderLoader<D> {
    /// Creates a new builder with default settings, on top of a configuration.
    /// By default, environment variable interpolation is enabled.
    pub fn new(builder: ConfigBuilder<D>) -> (loader: Self)
        ensures
            loader.builder == builder,
            loader.secrets@ == Seq::<(Seq<char>, String)>::empty(),
            loader.interpolate_env,
    {
        ConfigBuilderLoader { builder, secrets: KeyedMap::new(), interpolate_env: true }
    }

    /// Sets whether to interpolate environment variables in the config.
    pub fn interpolate_env(self, interpolate: bool) -> (loader: Self)
        ensures
            loader == (ConfigBuilderLoader { interpolate_env: interpolate, ..self }),
    {
        ConfigBuilderLoader { interpolate_env: interpolate, ..self }
    }

    /// Sets the secrets map for secret interpolation.
    pub fn secrets(self, secrets: KeyedMap<String, String>) -> (loader: Self)
        ensures
            loader == (ConfigBuilderLoader { secrets, ..self }),
    {
        ConfigBuilderLoader { secrets, ..self }
    }

    /// Sets whether to allow empty configuration.
    pub fn allow_empty(self, allow_empty: bool) -> (loader: Self)
        ensures
            loader == (ConfigBuilderLoader {
                builder: ConfigBuilder { allow_empty, ..self.builder },
                ..self
            }),
    {
        let ConfigBuilderLoader { builder, secrets, interpolate_env } = self;
        ConfigBuilderLoader {
            builder: ConfigBuilder { allow_empty, ..builder },
            secrets,
            interpolate_env,
        }
    }

    /// Prepares the text of a configuration, given what came of reading it (with environment
    /// variables put in where that is asked for): secrets are put in only where there are any.
    pub fn prepare<F: FnOnce(String, &KeyedMap<String, String>) -> Result<String, Vec<String>>>(
        &self,
        read: Result<String, Vec<String>>,
        interpolate: F,
    ) -> (prepared: Result<String, Vec<String>>)
        requires
            forall|text: String| call_requires(interpolate, (text, &self.secrets)),
        ensures
            match read {
                Err(errors) => prepared == Err::<String, Vec<String>>(errors),
                Ok(text) => if self.secrets@.len() == 0 {
                    prepared == Ok::<String, Vec<String>>(text)
                } else {
                    call_ensures(interpolate, (text, &self.secrets), prepared)
                },
            },
    {
        match read {
            Err(errors) => Err(errors),
            Ok(text) => if self.secrets.len() == 0 {
                Ok(text)
            } else {
                interpolate(text, &self.secrets)
            },
        }
    }

    /// Returns the resulting configuration.
    pub fn take(self) -> (builder: ConfigBuilder<D>)
        ensures
            builder == self.builder,
    {
        self.builder
    }
}

impl<D: Domain> Default for ConfigBuilderLoader<D> where
    D::Global: Default,
    D::Api: Default,
    D::Schema: Default,
    D::Healthchecks: Default,
    D::Secret: Default,
    D::Grace: Default,
 {
    /// Creates a new builder with default settings.
    /// By default, environment variable interpolation is enabled.
    fn default() -> (loader: Self)
        ensures
            call_ensures(ConfigBuilder::<D>::default, (), loader.builder),
            loader.secrets@ == Seq::<(Seq<char>, String)>::empty(),
            loader.interpolate_env,
    {
        ConfigBuilderLoader::new(ConfigBuilder::default())
    }
}

// ---------------------------------------------------------------------------------------------
// Components that were read.
// ---------------------------------------------------------------------------------------------

/// The components of one kind.
pub enum Fragment<D: Domain> {
    Sources(ComponentMap<SourceOuter<D>>),
    Sinks(ComponentMap<SinkOuter<String, D>>),
    Transforms(ComponentMap<TransformOuter<String, D>>),
    EnrichmentTables(ComponentMap<EnrichmentTableOuter<String, D>>),
    Tests(ComponentMap<D::Test>),
}

/// The kind of the components.
pub open spec fn fragment_kind<D: Domain>(fragment: Fragment<D>) -> ComponentHint {
    match fragment {
        Fragment::Sources(_) => ComponentHint::Source,
        Fragment::Sinks(_) => ComponentHint::Sink,
        Fragment::Transforms(_) => ComponentHint::Transform,
        Fragment::EnrichmentTables(_) => ComponentHint::EnrichmentTable,
        Fragment::Tests(_) => ComponentHint::Test,
    }
}

/// What is read as the components of a kind are components of that kind.
pub open spec fn reads_kinds<
    D: Domain,
    P: Fn(toml::Table, ComponentHint) -> Result<Fragment<D>, Vec<String>>,
>(parts: P) -> bool {
    forall|table: toml::Table, hint: ComponentHint, fragment: Fragment<D>| #[trigger]
        call_ensures(parts, (table, hint), Ok::<Fragment<D>, Vec<String>>(fragment))
            ==> fragment_kind(fragment) == hint
}

/// The values of a map, in order.
pub open spec fn values_of<V>(entries: Seq<(Seq<char>, V)>) -> Seq<V> {
    entries.map_values(|e: (Seq<char>, V)| e.1)
}

/// A configuration with the components of one kind added. A component of a known name replaces the
/// one that had it; tests have no names, and all stay.
pub open spec fn with_fragment<D: Domain>(
    builder: ConfigBuilderView<D>,
    fragment: Fragment<D>,
) -> ConfigBuilderView<D> {
    match fragment {
        Fragment::Sources(sources) => ConfigBuilderView {
            sources: extended(builder.sources, sources@),
            ..builder
        },
        Fragment::Sinks(sinks) => ConfigBuilderView {
            sinks: extended(builder.sinks, viewed(sinks@)),
            ..builder
        },
        Fragment::Transforms(transforms) => ConfigBuilderView {
            transforms: extended(builder.transforms, viewed(transforms@)),
            ..builder
        },
        Fragment::EnrichmentTables(tables) => ConfigBuilderView {
            enrichment_tables: extended(builder.enrichment_tables, viewed(tables@)),
            ..builder
        },
        Fragment::Tests(tests) => ConfigBuilderView {
            tests: builder.tests + values_of(tests@),
            ..builder
        },
    }
}

/// A configuration with what was read of the components of one kind. What could not be read leaves
/// it as it is.
pub open spec fn with_result<D: Domain>(
    builder: ConfigBuilderView<D>,
    fragment: Result<Fragment<D>, Vec<String>>,
) -> ConfigBuilderView<D> {
    match fragment {
        Ok(fragment) => with_fragment(builder, fragment),
        Err(_) => builder,
    }
}

/// What is wrong with what was read.
pub open spec fn result_errors<T>(result: Result<T, Vec<String>>) -> Seq<Seq<char>> {
    match result {
        Ok(_) => Seq::empty(),
        Err(errors) => texts(errors@),
    }
}

/// What the directory with the components of one kind came to.
pub enum ComponentsRead<D: Domain> {
    /// The directory itself could not be read, for these reasons.
    Unlisted(Seq<Seq<char>>),
    /// What went wrong with its files, and what they hold.
    Read { errors: Seq<Seq<char>>, fragment: Result<Fragment<D>, Vec<String>> },
}

/// A configuration with the components that were read, and what went wrong. A directory that could
/// not be read ends the work: nothing is told but what was wrong with it.
pub open spec fn with_components<D: Domain>(
    builder: ConfigBuilderView<D>,
    errors: Seq<Seq<char>>,
    components: Seq<ComponentsRead<D>>,
) -> (ConfigBuilderView<D>, bool, Seq<Seq<char>>)
    decreases components.len(),
{
    if components.len() == 0 {
        (builder, errors.len() > 0, errors)
    } else {
        match components[0] {
            ComponentsRead::Unlisted(unlisted) => (builder, true, unlisted),
            ComponentsRead::Read { errors: wrong, fragment } => with_components(
                with_result(builder, fragment),
                errors + wrong + result_errors(fragment),
                components.drop_first(),
            ),
        }
    }
}

/// What was wrong with a list of things, in order.
pub open spec fn all_result_errors<T>(results: Seq<Result<T, Vec<String>>>) -> Seq<Seq<char>>
    decreases results.len(),
{
    if results.len() == 0 {
        Seq::empty()
    } else {
        all_result_errors(results.drop_last()) + result_errors(results.last())
    }
}

/// What is kept while a configuration is added to.
pub open spec fn same_settings<D: Domain>(
    a: ConfigBuilderLoader<D>,
    b: ConfigBuilderLoader<D>,
) -> bool {
    a.secrets == b.secrets && a.interpolate_env == b.interpolate_env
}

/// Appends to a list what is wrong with a thing.
fn note_result(errors: &mut Vec<String>, result: Result<(), Vec<String>>)
    ensures
        texts(final(errors)@) == texts(old(errors)@) + result_errors(result),
{
    match result {
        Ok(()) => {
            assert(texts(errors@) =~= texts(old(errors)@) + result_errors(result));
        },
        Err(more) => {
            append_errors(errors, more);
        },
    }
}

/// Takes the values out of a map.
fn map_values<V>(map: ComponentMap<V>) -> (values: Vec<V>)
    ensures
        values@ == values_of(map@),
{
    let entries = map.into_entries();
    let ghost all = entries@;
    let mut values: Vec<V> = Vec::new();
    for entry in it: entries
        invariant
            it.seq() == all,
            values@.len() == it.index(),
            forall|j: int| 0 <= j < it.index() ==> #[trigger] values@[j] == all[j].1,
    {
        values.push(entry.1);
    }
    proof {
        assert(pairs(all).len() == all.len());
        assert forall|j: int| 0 <= j < all.len() implies values@[j] == #[trigger] values_of(
            map@,
        )[j] by {
            assert(pairs(all)[j].1 == all[j].1);
        }
        assert(values@ =~= values_of(map@));
    }
    values
}

impl<D: Domain> ConfigBuilderLoader<D> {
    /// Adds the components of one kind.
    pub fn merge(&mut self, fragment: Result<Fragment<D>, Vec<String>>) -> (result: Result<
        (),
        Vec<String>,
    >)
        ensures
            final(self).builder@ == with_result(old(self).builder@, fragment),
            same_settings(*final(self), *old(self)),
            result == (match fragment {
                Ok(_) => Ok::<(), Vec<String>>(()),
                Err(errors) => Err::<(), Vec<String>>(errors),
            }),
    {
        match fragment {
            Err(errors) => Err(errors),
            Ok(Fragment::Sources(sources)) => {
                self.builder.sources.extend(sources);
                Ok(())
            },
            Ok(Fragment::Sinks(sinks)) => {
                self.builder.sinks.extend(sinks);
                proof {
                    lemma_extended_viewed(old(self).builder.sinks@, sinks@);
                }
                Ok(())
            },
            Ok(Fragment::Transforms(transforms)) => {
                self.builder.transforms.extend(transforms);
                proof {
                    lemma_extended_viewed(old(self).builder.transforms@, transforms@);
                }
                Ok(())
            },
            Ok(Fragment::EnrichmentTables(tables)) => {
                self.builder.enrichment_tables.extend(tables);
                proof {
                    lemma_extended_viewed(old(self).builder.enrichment_tables@, tables@);
                }
                Ok(())
            },
            Ok(Fragment::Tests(tests)) => {
                let mut values = map_values(tests);
                self.builder.tests.append(&mut values);
                Ok(())
            },
        }
    }

    /// Hands out the configuration that an input came to, given whether it was added, or what went
    /// wrong.
    pub fn load_from_input(self, merged: Result<(), Vec<String>>) -> (result: Result<
        ConfigBuilder<D>,
        Vec<String>,
    >)
        ensures
            result == (match merged {
                Ok(()) => Ok::<ConfigBuilder<D>, Vec<String>>(self.builder),
                Err(errors) => Err::<ConfigBuilder<D>, Vec<String>>(errors),
            }),
    {
        match merged {
            Ok(()) => Ok(self.take()),
            Err(errors) => Err(errors),
        }
    }
}

// ---------------------------------------------------------------------------------------------
// Files and directories.
// ---------------------------------------------------------------------------------------------

/// What the files of a directory came to, or why the directory could not be read.
pub type DirResult = Result<Vec<FileResult>, Vec<String>>;

/// What was read of a directory with a configuration: what stands in it, and what stands in the
/// directories of the kinds of components that there are.
pub struct DirFiles {
    pub root: DirResult,
    pub components: ComponentDirs,
}

/// What was read of the directory of each kind of components, where there is one.
pub struct ComponentDirs {
    pub sources: Option<DirResult>,
    pub transforms: Option<DirResult>,
    pub sinks: Option<DirResult>,
    pub tests: Option<DirResult>,
    pub enrichment_tables: Option<DirResult>,
}

/// What was read of the directory of a kind of components, where there is one.
pub open spec fn dir_of(dirs: ComponentDirs, hint: ComponentHint) -> Option<DirResult> {
    match hint {
        ComponentHint::Source => dirs.sources,
        ComponentHint::Transform => dirs.transforms,
        ComponentHint::Sink => dirs.sinks,
        ComponentHint::Test => dirs.tests,
        ComponentHint::EnrichmentTable => dirs.enrichment_tables,
    }
}

/// What was read of the directories of a list of kinds of components, in the order of the list.
pub open spec fn dirs_of(dirs: ComponentDirs, kinds: Seq<ComponentHint>) -> Seq<
    (ComponentHint, DirResult),
>
    decreases kinds.len(),
{
    if kinds.len() == 0 {
        Seq::empty()
    } else {
        let front = dirs_of(dirs, kinds.drop_last());
        match dir_of(dirs, kinds.last()) {
            Some(read) => front.push((kinds.last(), read)),
            None => front,
        }
    }
}

/// Goes through the kinds of components, and lists what was read of their directories.
fn list_dirs(components: ComponentDirs) -> (dirs: Vec<(ComponentHint, DirResult)>)
    ensures
        dirs@ == dirs_of(components, hints()),
{
    let ComponentDirs { mut sources, mut transforms, mut sinks, mut tests, mut enrichment_tables } =
        components;
    let kinds = component_hints();
    let mut dirs: Vec<(ComponentHint, DirResult)> = Vec::new();
    assert(kinds@.take(0).len() == 0);
    let mut i: usize = 0;
    while i < kinds.len()
        invariant
            i <= kinds@.len(),
            kinds@ == hints(),
            dirs@ == dirs_of(components, kinds@.take(i as int)),
            i <= 0 ==> sources == components.sources,
            i <= 1 ==> transforms == components.transforms,
            i <= 2 ==> sinks == components.sinks,
            i <= 3 ==> tests == components.tests,
            i <= 4 ==> enrichment_tables == components.enrichment_tables,
        decreases kinds@.len() - i,
    {
        proof {
            assert(kinds@.take(i + 1).drop_last() =~= kinds@.take(i as int));
            assert(kinds@.take(i + 1).last() == kinds@[i as int]);
        }
        let read = match kinds[i] {
            ComponentHint::Source => sources.take(),
            ComponentHint::Transform => transforms.take(),
            ComponentHint::Sink => sinks.take(),
            ComponentHint::Test => tests.take(),
            ComponentHint::EnrichmentTable => enrichment_tables.take(),
        };
        assert(read == dir_of(components, kinds@[i as int]));
        match read {
            Some(read) => {
                dirs.push((kinds[i], read));
            },
            None => {},
        }
        i += 1;
    }
    assert(kinds@.take(kinds@.len() as int) =~= kinds@);
    dirs
}

/// What was read of a place that a configuration is loaded from.
pub enum ConfigRead {
    File(FileResult),
    Dir(DirFiles),
}

/// What was read of the files among the places of a list, in order.
pub open spec fn files_read(places: Seq<ConfigRead>) -> Seq<FileResult>
    decreases places.len(),
{
    if places.len() == 0 {
        Seq::empty()
    } else {
        let front = files_read(places.drop_last());
        match places.last() {
            ConfigRead::File(file) => front.push(file),
            ConfigRead::Dir(_) => front,
        }
    }
}

/// What was read of the directories among the places of a list, in order.
pub open spec fn dirs_read(places: Seq<ConfigRead>) -> Seq<DirFiles>
    decreases places.len(),
{
    if places.len() == 0 {
        Seq::empty()
    } else {
        let front = dirs_read(places.drop_last());
        match places.last() {
            ConfigRead::File(_) => front,
            ConfigRead::Dir(dir) => front.push(dir),
        }
    }
}

/// Tells the files of a list from the directories.
fn partition_places(places: Vec<ConfigRead>) -> (parts: (Vec<FileResult>, Vec<DirFiles>))
    ensures
        parts.0@ == files_read(places@),
        parts.1@ == dirs_read(places@),
{
    let ghost all = places@;
    let mut files: Vec<FileResult> = Vec::new();
    let mut dirs: Vec<DirFiles> = Vec::new();
    assert(all.take(0).len() == 0);
    for place in it: places
        invariant
            it.seq() == all,
            files@ == files_read(all.take(it.index())),
            dirs@ == dirs_read(all.take(it.index())),
    {
        proof {
            let i = it.index() as int;
            assert(all.take(i + 1).drop_last() =~= all.take(i));
            assert(all.take(i + 1).last() == place);
        }
        match place {
            ConfigRead::File(file) => {
                files.push(file);
            },
            ConfigRead::Dir(dir) => {
                dirs.push(dir);
            },
        }
    }
    assert(all.take(all.len() as int) =~= all);
    (files, dirs)
}

/// A table is added to a configuration as a whole. What it holds may be refused on its own, and
/// then the configuration stays as it is; or it may not fit the configuration.
pub open spec fn adds<
    D: Domain,
    W: Fn(toml::Table) -> Result<ConfigBuilder<D>, Vec<String>>,
    A: Fn(ConfigBuilder<D>, ConfigBuilder<D>) -> (ConfigBuilder<D>, Result<(), Vec<String>>),
>(
    before: ConfigBuilder<D>,
    table: toml::Table,
    whole: W,
    append: A,
    after: ConfigBuilder<D>,
    result: Result<(), Vec<String>>,
) -> bool {
    exists|read: Result<ConfigBuilder<D>, Vec<String>>| #[trigger]
        call_ensures(whole, (table,), read) && match read {
            Err(errors) => after == before && result == Err::<(), Vec<String>>(errors),
            Ok(config) => call_ensures(append, (before, config), (after, result)),
        }
}

/// What a directory of components came to: its files are put into one table, each under its name,
/// and the table is read as the components of the kind, which are of that kind.
pub open spec fn is_read<
    D: Domain,
    P: Fn(toml::Table, ComponentHint) -> Result<Fragment<D>, Vec<String>>,
>(dir: (ComponentHint, DirResult), parts: P, read: ComponentsRead<D>) -> bool {
    match dir.1 {
        Err(errors) => read == ComponentsRead::<D>::Unlisted(texts(errors@)),
        Ok(files) => exists|table: toml::Table| #[trigger]
            is_component_table(files@, table) && (match read {
                ComponentsRead::Unlisted(_) => false,
                ComponentsRead::Read { errors, fragment } => errors == merged_components(files@).1
                    && call_ensures(parts, (table, dir.0), fragment) && (fragment matches Ok(
                    components,
                ) ==> fragment_kind(components) == dir.0),
            }),
    }
}

/// A table holds the files of a directory of components, each under its name.
pub open spec fn is_component_table(files: Seq<FileResult>, table: toml::Table) -> bool {
    &&& holds_tables(table_entries(table))
    &&& tables_within(table_entries(table)) == merged_components(files).0
}

/// What the directories of components came to, up to the first that could not be read.
pub open spec fn are_read<
    D: Domain,
    P: Fn(toml::Table, ComponentHint) -> Result<Fragment<D>, Vec<String>>,
>(
    dirs: Seq<(ComponentHint, DirResult)>,
    parts: P,
    read: Seq<ComponentsRead<D>>,
) -> bool {
    &&& read.len() <= dirs.len()
    &&& read.len() < dirs.len() ==> read.len() > 0 && read.last() is Unlisted
    &&& forall|i: int| 0 <= i < read.len() ==> #[trigger] is_read(dirs[i], parts, read[i])
}

/// How a directory is loaded: the files in it are merged into one table, which is added as a whole,
/// and then come the components of each kind, in the order of the kinds.
pub open spec fn dir_loads<
    D: Domain,
    W: Fn(toml::Table) -> Result<ConfigBuilder<D>, Vec<String>>,
    P: Fn(toml::Table, ComponentHint) -> Result<Fragment<D>, Vec<String>>,
    A: Fn(ConfigBuilder<D>, ConfigBuilder<D>) -> (ConfigBuilder<D>, Result<(), Vec<String>>),
>(
    before: ConfigBuilder<D>,
    dir: DirFiles,
    whole: W,
    parts: P,
    append: A,
    after: ConfigBuilder<D>,
    result: Result<(), Vec<String>>,
) -> bool {
    match dir.root {
        Err(errors) => after == before && result == Err::<(), Vec<String>>(errors),
        Ok(files) => exists|
            table: toml::Table,
            merged: ConfigBuilder<D>,
            added: Result<(), Vec<String>>,
            read: Seq<ComponentsRead<D>>,
        |
            {
                &&& table_entries(table) == merged_root(files@).0
                &&& #[trigger] adds(before, table, whole, append, merged, added)
                &&& #[trigger] are_read(dirs_of(dir.components, hints()), parts, read)
                &&& is_end(
                    with_components(
                        merged@,
                        merged_root(files@).1 + result_errors(added),
                        read,
                    ),
                    after@,
                    result,
                )
            },
    }
}

/// A configuration and a result are what loading a directory came to.
pub open spec fn is_end<D: Domain>(
    end: (ConfigBuilderView<D>, bool, Seq<Seq<char>>),
    after: ConfigBuilderView<D>,
    result: Result<(), Vec<String>>,
) -> bool {
    &&& after == end.0
    &&& match result {
        Ok(()) => !end.1,
        Err(errors) => end.1 && texts(errors@) == end.2,
    }
}

/// How files and directories are loaded, one after the other: what each is added to, and what each
/// came to.
pub open spec fn are_loads<
    D: Domain,
    W: Fn(toml::Table) -> Result<ConfigBuilder<D>, Vec<String>>,
    P: Fn(toml::Table, ComponentHint) -> Result<Fragment<D>, Vec<String>>,
    A: Fn(ConfigBuilder<D>, ConfigBuilder<D>) -> (ConfigBuilder<D>, Result<(), Vec<String>>),
>(
    tables: Seq<(String, toml::Table)>,
    dirs: Seq<DirFiles>,
    whole: W,
    parts: P,
    append: A,
    states: Seq<ConfigBuilder<D>>,
    results: Seq<Result<(), Vec<String>>>,
) -> bool {
    &&& results.len() == tables.len() + dirs.len()
    &&& states.len() == results.len() + 1
    &&& forall|i: int|
        0 <= i < tables.len() ==> adds(
            states[i],
            tables[i].1,
            whole,
            append,
            states[i + 1],
            #[trigger] results[i],
        )
    &&& forall|i: int|
        tables.len() <= i < results.len() ==> dir_loads(
            states[i],
            dirs[i - tables.len()],
            whole,
            parts,
            append,
            states[i + 1],
            #[trigger] results[i],
        )
}

/// Adds a table to a configuration as a whole.
fn add_whole<
    D: Domain,
    W: Fn(toml::Table) -> Result<ConfigBuilder<D>, Vec<String>>,
    A: Fn(ConfigBuilder<D>, ConfigBuilder<D>) -> (ConfigBuilder<D>, Result<(), Vec<String>>),
>(builder: ConfigBuilder<D>, table: toml::Table, whole: W, append: A) -> (end: (
    ConfigBuilder<D>,
    Result<(), Vec<String>>,
))
    requires
        forall|t: toml::Table| call_requires(whole, (t,)),
        forall|a: ConfigBuilder<D>, b: ConfigBuilder<D>| call_requires(append, (a, b)),
    ensures
        adds(builder, table, whole, append, end.0, end.1),
{
    let read = whole(table);
    assert(call_ensures(whole, (table,), read));
    match read {
        Err(errors) => (builder, Err(errors)),
        Ok(config) => append(builder, config),
    }
}

/// One directory of components more: what came before it, and then the directory itself.
proof fn lemma_one_more<D: Domain>(
    builder: ConfigBuilderView<D>,
    errors: Seq<Seq<char>>,
    before: Seq<ComponentsRead<D>>,
    last: ComponentsRead<D>,
)
    requires
        forall|i: int| 0 <= i < before.len() ==> #[trigger] before[i] is Read,
    ensures
        with_components(builder, errors, before.push(last)) == with_components(
            with_components(builder, errors, before).0,
            with_components(builder, errors, before).2,
            seq![last],
        ),
    decreases before.len(),
{
    let all = before.push(last);
    if before.len() > 0 {
        let rest = before.drop_first();
        assert(before[0] is Read);
        assert(all[0] == before[0]);
        assert(all.drop_first() =~= rest.push(last));
        assert forall|i: int| 0 <= i < rest.len() implies #[trigger] rest[i] is Read by {
            assert(before[i + 1] is Read);
        }
        if let ComponentsRead::Read { errors: wrong, fragment } = before[0] {
            lemma_one_more(
                with_result(builder, fragment),
                errors + wrong + result_errors(fragment),
                rest,
                last,
            );
        }
    } else {
        assert(all =~= seq![last]);
    }
}

impl<D: Domain> ConfigBuilderLoader<D> {
    /// Loads what was read of a directory: first what the files in it hold, then the components of
    /// each kind that has a directory of its own there. Everything that goes wrong is told, unless
    /// a directory could not be read.
    fn load_from_dir<
        W: Fn(toml::Table) -> Result<ConfigBuilder<D>, Vec<String>> + Copy,
        P: Fn(toml::Table, ComponentHint) -> Result<Fragment<D>, Vec<String>> + Copy,
        A: Fn(ConfigBuilder<D>, ConfigBuilder<D>) -> (ConfigBuilder<D>, Result<(), Vec<String>>)
            + Copy,
    >(self, dir: DirFiles, whole: W, parts: P, append: A) -> (end: (
        Self,
        Result<(), Vec<String>>,
    ))
        requires
            forall|t: toml::Table| call_requires(whole, (t,)),
            forall|t: toml::Table, h: ComponentHint| call_requires(parts, (t, h)),
            reads_kinds(parts),
            forall|a: ConfigBuilder<D>, b: ConfigBuilder<D>| call_requires(append, (a, b)),
        ensures
            dir_loads(self.builder, dir, whole, parts, append, end.0.builder, end.1),
            same_settings(end.0, self),
    {
        let files = match dir.root {
            Ok(files) => files,
            Err(errors) => {
                return (self, Err(errors));
            },
        };
        let ghost start = self.builder;
        let ConfigBuilderLoader { builder, secrets, interpolate_env } = self;
        let (root, wrong) = merge_root(files);
        let mut errors = wrong;
        let (merged, added) = add_whole(builder, root, whole, append);
        let ghost from = merged@;
        note_result(&mut errors, added);
        let ghost first = texts(errors@);
        let mut loader = ConfigBuilderLoader { builder: merged, secrets, interpolate_env };
        let dirs = list_dirs(dir.components);
        let ghost all = dirs@;
        let ghost mut read: Seq<ComponentsRead<D>> = Seq::empty();
        assert(texts(errors@).len() == errors@.len());
        assert(dir_starts(start, dir, whole, append, root, merged, added, first));
        for entry in it: dirs
            invariant
                it.seq() == all,
                all == dirs_of(dir.components, hints()),
                reads_kinds(parts),
                start == self.builder,
                from == merged@,
                dir_starts(start, dir, whole, append, root, merged, added, first),
                forall|t: toml::Table, h: ComponentHint| call_requires(parts, (t, h)),
                same_settings(loader, self),
                read.len() == it.index(),
                forall|i: int| 0 <= i < read.len() ==> #[trigger] read[i] is Read,
                forall|i: int| 0 <= i < read.len() ==> #[trigger] is_read(all[i], parts, read[i]),
                with_components(from, first, read) == (
                    loader.builder@,
                    texts(errors@).len() > 0,
                    texts(errors@),
                ),
        {
            let ghost so_far = read;
            let ghost before = loader.builder@;
            let ghost old_errors = texts(errors@);
            match entry.1 {
                Err(unlisted) => {
                    proof {
                        let last = ComponentsRead::<D>::Unlisted(texts(unlisted@));
                        read = so_far.push(last);
                        lemma_one_more(from, first, so_far, last);
                        assert(is_read(all[so_far.len() as int], parts, last));
                        assert forall|i: int| 0 <= i < read.len() implies #[trigger] is_read(
                            all[i],
                            parts,
                            read[i],
                        ) by {
                            if i < so_far.len() {
                                assert(is_read(all[i], parts, so_far[i]));
                            }
                        }
                        assert(are_read(all, parts, read));
                        assert(with_components(before, old_errors, seq![last]).0 == before);
                    }
                    return (loader, Err(unlisted));
                },
                Ok(files) => {
                    let (table, wrong) = merge_components(files);
                    append_errors(&mut errors, wrong);
                    let fragment = parts(table, entry.0);
                    proof {
                        let last = ComponentsRead::Read {
                            errors: merged_components(files@).1,
                            fragment,
                        };
                        read = so_far.push(last);
                        lemma_one_more(from, first, so_far, last);
                        assert(is_component_table(files@, table));
                        assert(is_read(all[so_far.len() as int], parts, last));
                        assert(seq![last].drop_first().len() == 0);
                        reveal_with_fuel(with_components, 2);
                    }
                    let merged = loader.merge(fragment);
                    note_result(&mut errors, merged);
                    assert(texts(errors@) =~= old_errors + merged_components(files@).1
                        + result_errors(fragment));
                },
            }
        }
        assert(are_read(all, parts, read));
        assert(texts(errors@).len() == errors@.len());
        if errors.len() == 0 {
            (loader, Ok(()))
        } else {
            (loader, Err(errors))
        }
    }
}

/// The files of a directory have been merged and added.
spec fn dir_starts<
    D: Domain,
    W: Fn(toml::Table) -> Result<ConfigBuilder<D>, Vec<String>>,
    A: Fn(ConfigBuilder<D>, ConfigBuilder<D>) -> (ConfigBuilder<D>, Result<(), Vec<String>>),
>(
    before: ConfigBuilder<D>,
    dir: DirFiles,
    whole: W,
    append: A,
    table: toml::Table,
    merged: ConfigBuilder<D>,
    added: Result<(), Vec<String>>,
    errors: Seq<Seq<char>>,
) -> bool {
    &&& dir.root matches Ok(files) && table_entries(table) == merged_root(files@).0 && errors
        == merged_root(files@).1 + result_errors(added)
    &&& adds(before, table, whole, append, merged, added)
}

/// What loading from a list of places came to: the files among them come first, and then the
/// directories.
pub open spec fn is_load<
    D: Domain,
    W: Fn(toml::Table) -> Result<ConfigBuilder<D>, Vec<String>>,
    P: Fn(toml::Table, ComponentHint) -> Result<Fragment<D>, Vec<String>>,
    A: Fn(ConfigBuilder<D>, ConfigBuilder<D>) -> (ConfigBuilder<D>, Result<(), Vec<String>>),
>(
    builder: ConfigBuilder<D>,
    places: Seq<ConfigRead>,
    whole: W,
    parts: P,
    append: A,
    result: Result<ConfigBuilder<D>, Vec<String>>,
) -> bool {
    exists|states: Seq<ConfigBuilder<D>>, results: Seq<Result<(), Vec<String>>>|
        {
            let wrong = all_file_errors(files_read(places)) + all_result_errors(results);
            &&& #[trigger] are_loads(
                all_tables(files_read(places)),
                dirs_read(places),
                whole,
                parts,
                append,
                states,
                results,
            )
            &&& states[0] == builder
            &&& match result {
                Ok(loaded) => wrong.len() == 0 && loaded == states.last(),
                Err(errors) => wrong.len() > 0 && texts(errors@) == wrong,
            }
        }
}

impl<D: Domain> ConfigBuilderLoader<D> {
    /// Builds the ConfigBuilderLoader and loads configuration from what was read of the specified
    /// paths, in their order: first from all files, and then from all directories. Each is added to
    /// what came of those before it. `whole` reads a table as a configuration, `parts` as the
    /// components of one kind, and `append` adds a configuration to another.
    ///
    /// All that goes wrong is told: with reading the files, then with adding what each of them
    /// holds, then with each directory.
    pub fn load_from_paths<
        W: Fn(toml::Table) -> Result<ConfigBuilder<D>, Vec<String>> + Copy,
        P: Fn(toml::Table, ComponentHint) -> Result<Fragment<D>, Vec<String>> + Copy,
        A: Fn(ConfigBuilder<D>, ConfigBuilder<D>) -> (ConfigBuilder<D>, Result<(), Vec<String>>)
            + Copy,
    >(self, places: Vec<ConfigRead>, whole: W, parts: P, append: A) -> (result: Result<
        ConfigBuilder<D>,
        Vec<String>,
    >)
        requires
            forall|t: toml::Table| call_requires(whole, (t,)),
            forall|t: toml::Table, h: ComponentHint| call_requires(parts, (t, h)),
            reads_kinds(parts),
            forall|a: ConfigBuilder<D>, b: ConfigBuilder<D>| call_requires(append, (a, b)),
        ensures
            is_load(self.builder, places@, whole, parts, append, result),
    {
        let ghost start = self.builder;
        let (files, dirs) = partition_places(places);
        let ghost all_dirs = dirs@;
        let ConfigBuilderLoader { builder, secrets, interpolate_env } = self;
        let (tables, wrong) = collect_tables(files);
        let ghost all = tables@;
        let mut errors = wrong;
        let ghost first = texts(errors@);
        let ghost mut states: Seq<ConfigBuilder<D>> = seq![start];
        let ghost mut results: Seq<Result<(), Vec<String>>> = Seq::empty();
        let mut builder = builder;
        assert(first + all_result_errors(results) =~= first);
        for entry in it: tables
            invariant
                it.seq() == all,
                forall|t: toml::Table| call_requires(whole, (t,)),
                forall|a: ConfigBuilder<D>, b: ConfigBuilder<D>| call_requires(append, (a, b)),
                results.len() == it.index(),
                states.len() == results.len() + 1,
                states[0] == start,
                states.last() == builder,
                forall|i: int|
                    0 <= i < results.len() ==> adds(
                        states[i],
                        all[i].1,
                        whole,
                        append,
                        states[i + 1],
                        #[trigger] results[i],
                    ),
                texts(errors@) == first + all_result_errors(results),
        {
            let ghost before = results;
            let (next, added) = add_whole(builder, entry.1, whole, append);
            builder = next;
            proof {
                states = states.push(builder);
                results = before.push(added);
                assert(results.drop_last() =~= before);
            }
            note_result(&mut errors, added);
            assert(texts(errors@) =~= first + all_result_errors(results));
        }
        let mut loader = ConfigBuilderLoader { builder, secrets, interpolate_env };
        for dir in it: dirs
            invariant
                it.seq() == all_dirs,
                forall|t: toml::Table| call_requires(whole, (t,)),
                forall|t: toml::Table, h: ComponentHint| call_requires(parts, (t, h)),
                reads_kinds(parts),
                forall|a: ConfigBuilder<D>, b: ConfigBuilder<D>| call_requires(append, (a, b)),
                results.len() == all.len() + it.index(),
                states.len() == results.len() + 1,
                states[0] == start,
                states.last() == loader.builder,
                forall|i: int|
                    0 <= i < all.len() ==> adds(
                        states[i],
                        all[i].1,
                        whole,
                        append,
                        states[i + 1],
                        #[trigger] results[i],
                    ),
                forall|i: int|
                    all.len() <= i < results.len() ==> dir_loads(
                        states[i],
                        all_dirs[i - all.len()],
                        whole,
                        parts,
                        append,
                        states[i + 1],
                        #[trigger] results[i],
                    ),
                texts(errors@) == first + all_result_errors(results),
        {
            let ghost before = results;
            let (next, loaded) = loader.load_from_dir(dir, whole, parts, append);
            loader = next;
            proof {
                states = states.push(loader.builder);
                results = before.push(loaded);
                assert(results.drop_last() =~= before);
            }
            note_result(&mut errors, loaded);
            assert(texts(errors@) =~= first + all_result_errors(results));
        }
        assert(are_loads(all, all_dirs, whole, parts, append, states, results));
        assert(texts(errors@).len() == errors@.len());
        if errors.len() == 0 {
            Ok(loader.builder)
        } else {
            Err(errors)
        }
    }
}

// ---------------------------------------------------------------------------------------------
// What holds of what is loaded.
// ---------------------------------------------------------------------------------------------

/// A component that is read replaces the one that had its name, and every other stays what it is.
pub proof fn law_later_components_win<V>(
    before: Seq<(Seq<char>, V)>,
    read: Seq<(Seq<char>, V)>,
    key: Seq<char>,
)
    requires
        distinct_keys(before),
        distinct_keys(read),
    ensures
        lookup(extended(before, read), key) == (match lookup(read, key) {
            Some(component) => Some(component),
            None => lookup(before, key),
        }),
{
    lemma_extended_lookup(before, read, key);
}

/// What is read of the directories of components changes nothing but components and tests.
pub proof fn law_components_keep_settings<D: Domain>(
    builder: ConfigBuilderView<D>,
    errors: Seq<Seq<char>>,
    components: Seq<ComponentsRead<D>>,
)
    ensures
        ({
            let after = with_components(builder, errors, components).0;
            after == (ConfigBuilderView {
                sources: after.sources,
                sinks: after.sinks,
                transforms: after.transforms,
                enrichment_tables: after.enrichment_tables,
                tests: after.tests,
                ..builder
            })
        }),
    decreases components.len(),
{
    if components.len() > 0 {
        if let ComponentsRead::Read { errors: wrong, fragment } = components[0] {
            law_components_keep_settings(
                with_result(builder, fragment),
                errors + wrong + result_errors(fragment),
                components.drop_first(),
            );
        }
    }
}

/// What went wrong with the directories of components, in order: with the files of each, and then
/// with what they hold.
pub open spec fn component_errors<D: Domain>(components: Seq<ComponentsRead<D>>) -> Seq<Seq<char>>
    decreases components.len(),
{
    if components.len() == 0 {
        Seq::empty()
    } else {
        (match components[0] {
            ComponentsRead::Unlisted(unlisted) => unlisted,
            ComponentsRead::Read { errors, fragment } => errors + result_errors(fragment),
        }) + component_errors(components.drop_first())
    }
}

/// Where every directory could be read, everything that went wrong is told, in order, and the
/// directory is loaded well exactly where nothing did.
pub proof fn law_directory_errors<D: Domain>(
    builder: ConfigBuilderView<D>,
    errors: Seq<Seq<char>>,
    components: Seq<ComponentsRead<D>>,
)
    requires
        forall|i: int| 0 <= i < components.len() ==> #[trigger] components[i] is Read,
    ensures
        with_components(builder, errors, components).2 == errors + component_errors(components),
        with_components(builder, errors, components).1 == (with_components(
            builder,
            errors,
            components,
        ).2.len() > 0),
    decreases components.len(),
{
    if components.len() > 0 {
        let rest = components.drop_first();
        assert(components[0] is Read);
        assert forall|i: int| 0 <= i < rest.len() implies #[trigger] rest[i] is Read by {
            assert(components[i + 1] is Read);
        }
        if let ComponentsRead::Read { errors: wrong, fragment } = components[0] {
            let so_far = errors + wrong + result_errors(fragment);
            law_directory_errors(with_result(builder, fragment), so_far, rest);
            assert(so_far + component_errors(rest) =~= errors + component_errors(components));
        }
    } else {
        assert(errors + component_errors(components) =~= errors);
    }
}

/// A directory that cannot be read hides everything that went wrong before it, and nothing that
/// comes after it is loaded.
pub proof fn law_unlisted_directory_ends<D: Domain>(
    builder: ConfigBuilderView<D>,
    errors: Seq<Seq<char>>,
    before: Seq<ComponentsRead<D>>,
    unlisted: Seq<Seq<char>>,
    after: Seq<ComponentsRead<D>>,
)
    requires
        forall|i: int| 0 <= i < before.len() ==> #[trigger] before[i] is Read,
    ensures
        with_components(
            builder,
            errors,
            before.push(ComponentsRead::Unlisted(unlisted)) + after,
        ) == (with_components(builder, errors, before).0, true, unlisted),
    decreases before.len(),
{
    let all = before.push(ComponentsRead::Unlisted(unlisted)) + after;
    if before.len() > 0 {
        let rest = before.drop_first();
        assert(before[0] is Read);
        assert(all[0] == before[0]);
        assert(all.drop_first() =~= rest.push(ComponentsRead::Unlisted(unlisted)) + after);
        assert forall|i: int| 0 <= i < rest.len() implies #[trigger] rest[i] is Read by {
            assert(before[i + 1] is Read);
        }
        if let ComponentsRead::Read { errors: wrong, fragment } = before[0] {
            law_unlisted_directory_ends(
                with_result(builder, fragment),
                errors + wrong + result_errors(fragment),
                rest,
                unlisted,
                after,
            );
        }
    } else {
        assert(all[0] == ComponentsRead::<D>::Unlisted(unlisted));
    }
}

/// Where there is nothing to load, the configuration is handed out as it is.
pub proof fn law_nothing_to_load<
    D: Domain,
    W: Fn(toml::Table) -> Result<ConfigBuilder<D>, Vec<String>>,
    P: Fn(toml::Table, ComponentHint) -> Result<Fragment<D>, Vec<String>>,
    A: Fn(ConfigBuilder<D>, ConfigBuilder<D>) -> (ConfigBuilder<D>, Result<(), Vec<String>>),
>(
    builder: ConfigBuilder<D>,
    whole: W,
    parts: P,
    append: A,
    result: Result<ConfigBuilder<D>, Vec<String>>,
)
    requires
        is_load(builder, Seq::empty(), whole, parts, append, result),
    ensures
        result == Ok::<ConfigBuilder<D>, Vec<String>>(builder),
{
}

/// A configuration is handed out only where no file is wrong.
pub proof fn law_wrong_files_are_told<
    D: Domain,
    W: Fn(toml::Table) -> Result<ConfigBuilder<D>, Vec<String>>,
    P: Fn(toml::Table, ComponentHint) -> Result<Fragment<D>, Vec<String>>,
    A: Fn(ConfigBuilder<D>, ConfigBuilder<D>) -> (ConfigBuilder<D>, Result<(), Vec<String>>),
>(
    builder: ConfigBuilder<D>,
    places: Seq<ConfigRead>,
    whole: W,
    parts: P,
    append: A,
    result: Result<ConfigBuilder<D>, Vec<String>>,
)
    requires
        is_load(builder, places, whole, parts, append, result),
        all_file_errors(files_read(places)).len() > 0,
    ensures
        result matches Err(errors) && all_file_errors(files_read(places)).is_prefix_of(
            texts(errors@),
        ),
{
    let (states, results) = choose|
        states: Seq<ConfigBuilder<D>>,
        results: Seq<Result<(), Vec<String>>>,
    |
        {
            let wrong = all_file_errors(files_read(places)) + all_result_errors(results);
            &&& #[trigger] are_loads(
                all_tables(files_read(places)),
                dirs_read(places),
                whole,
                parts,
                append,
                states,
                results,
            )
            &&& states[0] == builder
            &&& match result {
                Ok(loaded) => wrong.len() == 0 && loaded == states.last(),
                Err(errors) => wrong.len() > 0 && texts(errors@) == wrong,
            }
        };
    let wrong = all_file_errors(files_read(places)) + all_result_errors(results);
    assert(all_file_errors(files_read(places)).is_prefix_of(wrong));
}

/// The same places, with all files before all directories.
pub open spec fn files_first(places: Seq<ConfigRead>) -> Seq<ConfigRead> {
    files_read(places).map_values(|file: FileResult| ConfigRead::File(file)) + dirs_read(
        places,
    ).map_values(|dir: DirFiles| ConfigRead::Dir(dir))
}

/// It does not matter where the directories stand among the files: moving all files before all
/// directories changes nothing about what is loaded, nor about what is told to be wrong.
pub proof fn law_files_first<
    D: Domain,
    W: Fn(toml::Table) -> Result<ConfigBuilder<D>, Vec<String>>,
    P: Fn(toml::Table, ComponentHint) -> Result<Fragment<D>, Vec<String>>,
    A: Fn(ConfigBuilder<D>, ConfigBuilder<D>) -> (ConfigBuilder<D>, Result<(), Vec<String>>),
>(
    builder: ConfigBuilder<D>,
    places: Seq<ConfigRead>,
    whole: W,
    parts: P,
    append: A,
    result: Result<ConfigBuilder<D>, Vec<String>>,
)
    ensures
        is_load(builder, places, whole, parts, append, result) == is_load(
            builder,
            files_first(places),
            whole,
            parts,
            append,
            result,
        ),
{
    let files = files_read(places).map_values(|file: FileResult| ConfigRead::File(file));
    let dirs = dirs_read(places).map_values(|dir: DirFiles| ConfigRead::Dir(dir));
    lemma_places_parts(files, dirs);
    lemma_only_files(files_read(places));
    lemma_only_dirs(dirs_read(places));
    assert(files_read(files_first(places)) =~= files_read(places));
    assert(dirs_read(files_first(places)) =~= dirs_read(places));
}

/// A list of places can be parted piece by piece.
proof fn lemma_places_parts(head: Seq<ConfigRead>, tail: Seq<ConfigRead>)
    ensures
        files_read(head + tail) == files_read(head) + files_read(tail),
        dirs_read(head + tail) == dirs_read(head) + dirs_read(tail),
    decreases tail.len(),
{
    if tail.len() > 0 {
        lemma_places_parts(head, tail.drop_last());
        assert((head + tail).drop_last() =~= head + tail.drop_last());
        assert((head + tail).last() == tail.last());
    } else {
        assert(head + tail =~= head);
    }
    assert(files_read(head + tail) =~= files_read(head) + files_read(tail));
    assert(dirs_read(head + tail) =~= dirs_read(head) + dirs_read(tail));
}

proof fn lemma_only_files(files: Seq<FileResult>)
    ensures
        files_read(files.map_values(|file: FileResult| ConfigRead::File(file))) == files,
        dirs_read(files.map_values(|file: FileResult| ConfigRead::File(file))).len() == 0,
    decreases files.len(),
{
    let places = files.map_values(|file: FileResult| ConfigRead::File(file));
    if files.len() > 0 {
        lemma_only_files(files.drop_last());
        assert(places.drop_last() =~= files.drop_last().map_values(
            |file: FileResult| ConfigRead::File(file),
        ));
    }
    assert(files_read(places) =~= files);
}

proof fn lemma_only_dirs(dirs: Seq<DirFiles>)
    ensures
        dirs_read(dirs.map_values(|dir: DirFiles| ConfigRead::Dir(dir))) == dirs,
        files_read(dirs.map_values(|dir: DirFiles| ConfigRead::Dir(dir))).len() == 0,
    decreases dirs.len(),
{
    let places = dirs.map_values(|dir: DirFiles| ConfigRead::Dir(dir));
    if dirs.len() > 0 {
        lemma_only_dirs(dirs.drop_last());
        assert(places.drop_last() =~= dirs.drop_last().map_values(
            |dir: DirFiles| ConfigRead::Dir(dir),
        ));
    }
    assert(dirs_read(places) =~= dirs);
}

/// No place is lost.
pub proof fn law_no_place_is_lost(places: Seq<ConfigRead>)
    ensures
        files_read(places).len() + dirs_read(places).len() == places.len(),
    decreases places.len(),
{
    if places.len() > 0 {
        law_no_place_is_lost(places.drop_last());
    }
}

/// No two components of one kind have the same name.
pub open spec fn names_are_distinct<D: Domain>(builder: ConfigBuilderView<D>) -> bool {
    &&& distinct_keys(builder.sources)
    &&& distinct_keys(builder.sinks)
    &&& distinct_keys(builder.transforms)
    &&& distinct_keys(builder.enrichment_tables)
}

/// No two components that were read have the same name.
pub open spec fn read_distinct<D: Domain>(fragment: Result<Fragment<D>, Vec<String>>) -> bool {
    match fragment {
        Ok(Fragment::Sources(sources)) => distinct_keys(sources@),
        Ok(Fragment::Sinks(sinks)) => distinct_keys(sinks@),
        Ok(Fragment::Transforms(transforms)) => distinct_keys(transforms@),
        Ok(Fragment::EnrichmentTables(tables)) => distinct_keys(tables@),
        _ => true,
    }
}

/// Under every name stands what was read under it, else what stood there before; and what was there
/// keeps its place.
pub open spec fn is_filed<V: View>(
    before: Seq<(Seq<char>, V::V)>,
    read: Seq<(Seq<char>, V)>,
    after: Seq<(Seq<char>, V::V)>,
) -> bool {
    &&& forall|name: Seq<char>| #[trigger]
        lookup(after, name) == (match lookup(read, name) {
            Some(component) => Some(component@),
            None => lookup(before, name),
        })
    &&& before.len() <= after.len()
    &&& forall|i: int| 0 <= i < before.len() ==> (#[trigger] after[i]).0 == before[i].0
}

proof fn lemma_places_kept<K, V>(entries: Seq<(K, V)>, later: Seq<(K, V)>)
    ensures
        entries.len() <= extended(entries, later).len(),
        forall|i: int|
            0 <= i < entries.len() ==> (#[trigger] extended(entries, later)[i]).0 == entries[i].0,
    decreases later.len(),
{
    if later.len() > 0 {
        lemma_places_kept(entries, later.drop_last());
    }
}

proof fn lemma_viewed_distinct<V: View>(entries: Seq<(Seq<char>, V)>)
    requires
        distinct_keys(entries),
    ensures
        distinct_keys(viewed(entries)),
{
    let shown = viewed(entries);
    assert forall|i: int, j: int| 0 <= i < j < shown.len() implies (#[trigger] shown[i]).0 != (
    #[trigger] shown[j]).0 by {
        assert(entries[i].0 != entries[j].0);
    }
}

proof fn lemma_filed<V: View>(before: Seq<(Seq<char>, V::V)>, read: Seq<(Seq<char>, V)>)
    requires
        distinct_keys(before),
        distinct_keys(read),
    ensures
        is_filed(before, read, extended(before, viewed(read))),
        distinct_keys(extended(before, viewed(read))),
{
    let later = viewed(read);
    lemma_viewed_distinct(read);
    assert forall|name: Seq<char>| #[trigger]
        lookup(extended(before, later), name) == (match lookup(read, name) {
            Some(component) => Some(component@),
            None => lookup(before, name),
        }) by {
        lemma_extended_lookup(before, later, name);
        lemma_viewed_lookup(read, name);
    }
    lemma_places_kept(before, later);
    lemma_extended_distinct(before, later);
}

/// What stands in a configuration after the components of one kind were added. Under each name of
/// that kind stands the component that was read under it, else the one that stood there before;
/// tests follow those before them, in order. Every other kind, and every setting, stays what it is;
/// and where nothing could be read, everything does.
pub proof fn law_merged<D: Domain>(
    before: ConfigBuilderView<D>,
    fragment: Result<Fragment<D>, Vec<String>>,
    after: ConfigBuilderView<D>,
)
    requires
        after == with_result(before, fragment),
        names_are_distinct(before),
        read_distinct(fragment),
    ensures
        names_are_distinct(after),
        after.global == before.global,
        after.api == before.api,
        after.schema == before.schema,
        after.healthchecks == before.healthchecks,
        after.provider == before.provider,
        after.secret == before.secret,
        after.graceful_shutdown_duration == before.graceful_shutdown_duration,
        after.allow_empty == before.allow_empty,
        fragment is Err ==> after == before,
        match fragment {
            Ok(Fragment::Sources(read)) => {
                &&& forall|name: Seq<char>| #[trigger]
                    lookup(after.sources, name) == (match lookup(read@, name) {
                        Some(source) => Some(source),
                        None => lookup(before.sources, name),
                    })
                &&& before.sources.len() <= after.sources.len()
                &&& forall|i: int|
                    0 <= i < before.sources.len() ==> (#[trigger] after.sources[i]).0
                        == before.sources[i].0
            },
            _ => after.sources == before.sources,
        },
        match fragment {
            Ok(Fragment::Sinks(read)) => is_filed(before.sinks, read@, after.sinks),
            _ => after.sinks == before.sinks,
        },
        match fragment {
            Ok(Fragment::Transforms(read)) => is_filed(before.transforms, read@, after.transforms),
            _ => after.transforms == before.transforms,
        },
        match fragment {
            Ok(Fragment::EnrichmentTables(read)) => is_filed(
                before.enrichment_tables,
                read@,
                after.enrichment_tables,
            ),
            _ => after.enrichment_tables == before.enrichment_tables,
        },
        match fragment {
            Ok(Fragment::Tests(read)) => {
                &&& after.tests.len() == before.tests.len() + read@.len()
                &&& forall|i: int|
                    0 <= i < before.tests.len() ==> #[trigger] after.tests[i] == before.tests[i]
                &&& forall|i: int|
                    0 <= i < read@.len() ==> #[trigger] after.tests[before.tests.len() + i]
                        == read@[i].1
            },
            _ => after.tests == before.tests,
        },
{
    match fragment {
        Ok(Fragment::Sources(read)) => {
            assert forall|name: Seq<char>| #[trigger]
                lookup(after.sources, name) == (match lookup(read@, name) {
                    Some(source) => Some(source),
                    None => lookup(before.sources, name),
                }) by {
                lemma_extended_lookup(before.sources, read@, name);
            }
            lemma_places_kept(before.sources, read@);
            lemma_extended_distinct(before.sources, read@);
        },
        Ok(Fragment::Sinks(read)) => {
            lemma_filed(before.sinks, read@);
        },
        Ok(Fragment::Transforms(read)) => {
            lemma_filed(before.transforms, read@);
        },
        Ok(Fragment::EnrichmentTables(read)) => {
            lemma_filed(before.enrichment_tables, read@);
        },
        _ => {},
    }
}

/// Nothing is said to be wrong.
pub open spec fn says_nothing<T>(result: Result<T, Vec<String>>) -> bool {
    match result {
        Ok(_) => true,
        Err(errors) => errors@.len() == 0,
    }
}

/// Two configurations have the same components of a kind.
pub open spec fn same_of_kind<D: Domain>(
    a: ConfigBuilderView<D>,
    b: ConfigBuilderView<D>,
    hint: ComponentHint,
) -> bool {
    match hint {
        ComponentHint::Source => a.sources == b.sources,
        ComponentHint::Transform => a.transforms == b.transforms,
        ComponentHint::Sink => a.sinks == b.sinks,
        ComponentHint::Test => a.tests == b.tests,
        ComponentHint::EnrichmentTable => a.enrichment_tables == b.enrichment_tables,
    }
}

/// A table holds the files of a directory, and was read as components of a kind, which were added.
pub open spec fn is_loaded_as<
    D: Domain,
    P: Fn(toml::Table, ComponentHint) -> Result<Fragment<D>, Vec<String>>,
>(
    dir: DirResult,
    hint: ComponentHint,
    parts: P,
    before: ConfigBuilderView<D>,
    after: ConfigBuilderView<D>,
    table: toml::Table,
    fragment: Result<Fragment<D>, Vec<String>>,
) -> bool {
    &&& dir matches Ok(files) && merged_components(files@).1.len() == 0 && is_component_table(
        files@,
        table,
    )
    &&& call_ensures(parts, (table, hint), fragment)
    &&& match fragment {
        Ok(Fragment::Sources(_)) => hint is Source,
        Ok(Fragment::Sinks(_)) => hint is Sink,
        Ok(Fragment::Transforms(_)) => hint is Transform,
        Ok(Fragment::EnrichmentTables(_)) => hint is EnrichmentTable,
        Ok(Fragment::Tests(_)) => hint is Test,
        Err(errors) => errors@.len() == 0,
    }
    &&& same_of_kind(after, with_result(before, fragment), hint)
}

/// What was read of the directory of a kind, where there is one.
pub open spec fn own_dir(dirs: ComponentDirs, hint: ComponentHint) -> Option<DirResult> {
    if hint is Source {
        dirs.sources
    } else if hint is Transform {
        dirs.transforms
    } else if hint is Sink {
        dirs.sinks
    } else if hint is Test {
        dirs.tests
    } else {
        dirs.enrichment_tables
    }
}

/// The directory of one kind of components was loaded: where there is one, its files were put into
/// one table without fault, the table was read as components of that kind, and these were added;
/// where there is none, the components of that kind stay what they were.
pub open spec fn kind_is_loaded<
    D: Domain,
    P: Fn(toml::Table, ComponentHint) -> Result<Fragment<D>, Vec<String>>,
>(
    dirs: ComponentDirs,
    hint: ComponentHint,
    parts: P,
    before: ConfigBuilderView<D>,
    after: ConfigBuilderView<D>,
) -> bool {
    match own_dir(dirs, hint) {
        None => same_of_kind(after, before, hint),
        Some(read) => exists|
            table: toml::Table,
            fragment: Result<Fragment<D>, Vec<String>>,
        | #[trigger]
            is_loaded_as(read, hint, parts, before, after, table, fragment),
    }
}

/// A kind of components and its directory, where there is one.
pub open spec fn kind_and_dir(hint: ComponentHint, dir: Option<DirResult>) -> Seq<
    (ComponentHint, DirResult),
> {
    match dir {
        Some(read) => seq![(hint, read)],
        None => seq![],
    }
}

/// The directories of components are gone through in this order: sources, transforms, sinks, tests
/// and enrichment tables. One that is not there is passed over.
pub proof fn law_dirs_in_order(dirs: ComponentDirs)
    ensures
        dirs_of(dirs, hints()) == kind_and_dir(ComponentHint::Source, dirs.sources) + kind_and_dir(
            ComponentHint::Transform,
            dirs.transforms,
        ) + kind_and_dir(ComponentHint::Sink, dirs.sinks) + kind_and_dir(
            ComponentHint::Test,
            dirs.tests,
        ) + kind_and_dir(ComponentHint::EnrichmentTable, dirs.enrichment_tables),
{
    let all = hints();
    let four = all.drop_last();
    let three = four.drop_last();
    let two = three.drop_last();
    let one = two.drop_last();
    let none = one.drop_last();
    assert(none.len() == 0);
    assert(one.last() == ComponentHint::Source);
    assert(two.last() == ComponentHint::Transform);
    assert(three.last() == ComponentHint::Sink);
    assert(four.last() == ComponentHint::Test);
    assert(all.last() == ComponentHint::EnrichmentTable);
    assert(dirs_of(dirs, none).len() == 0);
    let a = kind_and_dir(ComponentHint::Source, dirs.sources);
    let b = kind_and_dir(ComponentHint::Transform, dirs.transforms);
    let c = kind_and_dir(ComponentHint::Sink, dirs.sinks);
    let d = kind_and_dir(ComponentHint::Test, dirs.tests);
    let e = kind_and_dir(ComponentHint::EnrichmentTable, dirs.enrichment_tables);
    assert(dirs_of(dirs, one) =~= a);
    assert(dirs_of(dirs, two) =~= a + b);
    assert(dirs_of(dirs, three) =~= a + b + c);
    assert(dirs_of(dirs, four) =~= a + b + c + d);
    assert(dirs_of(dirs, all) =~= a + b + c + d + e);
}

/// The components that were read of a directory are of a kind.
spec fn is_of_kind<D: Domain>(read: Seq<ComponentsRead<D>>, i: int, hint: ComponentHint) -> bool {
    &&& 0 <= i < read.len()
    &&& read[i] matches ComponentsRead::Read { errors, fragment } && (fragment matches Ok(
        components,
    ) && fragment_kind(components) == hint)
}

proof fn lemma_kinds_filed<D: Domain>(
    builder: ConfigBuilderView<D>,
    errors: Seq<Seq<char>>,
    read: Seq<ComponentsRead<D>>,
    hint: ComponentHint,
)
    requires
        !with_components(builder, errors, read).1,
        forall|i: int, j: int, h: ComponentHint| #[trigger]
            is_of_kind(read, i, h) && #[trigger] is_of_kind(read, j, h) ==> i == j,
    ensures
        errors.len() == 0,
        forall|i: int|
            0 <= i < read.len() ==> (#[trigger] read[i] matches ComponentsRead::Read {
                errors: wrong,
                fragment,
            } && wrong.len() == 0 && says_nothing(fragment)),
        forall|i: int| #[trigger]
            is_of_kind(read, i, hint) ==> same_of_kind(
                with_components(builder, errors, read).0,
                with_fragment(builder, read[i]->fragment->Ok_0),
                hint,
            ),
        (forall|i: int| !#[trigger] is_of_kind(read, i, hint)) ==> same_of_kind(
            with_components(builder, errors, read).0,
            builder,
            hint,
        ),
    decreases read.len(),
{
    if read.len() > 0 {
        let rest = read.drop_first();
        assert(read[0] is Read);
        if let ComponentsRead::Read { errors: wrong, fragment } = read[0] {
            let next = with_result(builder, fragment);
            let so_far = errors + wrong + result_errors(fragment);
            assert forall|i: int, h: ComponentHint| #[trigger] is_of_kind(rest, i, h) implies
                is_of_kind(read, i + 1, h) by {
                assert(rest[i] == read[i + 1]);
            }
            assert forall|i: int, j: int, h: ComponentHint| #[trigger]
                is_of_kind(rest, i, h) && #[trigger] is_of_kind(rest, j, h) implies i == j by {
                assert(is_of_kind(read, i + 1, h) && is_of_kind(read, j + 1, h));
            }
            lemma_kinds_filed(next, so_far, rest, hint);
            if let Err(said) = fragment {
                assert(texts(said@).len() == said@.len());
            }
            assert forall|i: int| 0 <= i < read.len() implies (
            #[trigger] read[i] matches ComponentsRead::Read { errors: wrong, fragment }
                && wrong.len() == 0 && says_nothing(fragment)) by {
                if i > 0 {
                    assert(rest[i - 1] == read[i]);
                }
            }
            let end = with_components(builder, errors, read).0;
            let here = is_of_kind(read, 0, hint);
            assert forall|i: int| #[trigger] is_of_kind(read, i, hint) implies same_of_kind(
                end,
                with_fragment(builder, read[i]->fragment->Ok_0),
                hint,
            ) by {
                if i > 0 {
                    assert(rest[i - 1] == read[i]);
                    assert(is_of_kind(rest, i - 1, hint));
                    if here {
                        assert(is_of_kind(read, 0, hint) && is_of_kind(read, i, hint));
                    }
                } else {
                    assert forall|j: int| !#[trigger] is_of_kind(rest, j, hint) by {
                        if is_of_kind(rest, j, hint) {
                            assert(is_of_kind(read, j + 1, hint));
                        }
                    }
                }
            }
            if forall|i: int| !#[trigger] is_of_kind(read, i, hint) {
                assert forall|j: int| !#[trigger] is_of_kind(rest, j, hint) by {
                    if is_of_kind(rest, j, hint) {
                        assert(is_of_kind(read, j + 1, hint));
                    }
                }
                assert(!here);
            }
        }
    }
}

/// A directory that is loaded without fault: the files in it were merged into one table without
/// fault, the table was read as a configuration, and this was added to what was there; and then
/// each kind of components was loaded on top of that. Settings come from the files in the directory
/// alone.
pub proof fn law_directory_is_loaded<
    D: Domain,
    W: Fn(toml::Table) -> Result<ConfigBuilder<D>, Vec<String>>,
    P: Fn(toml::Table, ComponentHint) -> Result<Fragment<D>, Vec<String>>,
    A: Fn(ConfigBuilder<D>, ConfigBuilder<D>) -> (ConfigBuilder<D>, Result<(), Vec<String>>),
>(
    before: ConfigBuilder<D>,
    dir: DirFiles,
    whole: W,
    parts: P,
    append: A,
    after: ConfigBuilder<D>,
)
    requires
        dir_loads(before, dir, whole, parts, append, after, Ok(())),
    ensures
        dir.root matches Ok(files) && merged_root(files@).1.len() == 0 && exists|
            table: toml::Table,
            merged: ConfigBuilder<D>,
            added: Result<(), Vec<String>>,
        |
            {
                &&& table_entries(table) == merged_root(files@).0
                &&& #[trigger] adds(before, table, whole, append, merged, added)
                &&& says_nothing(added)
                &&& after@ == (ConfigBuilderView {
                    sources: after@.sources,
                    sinks: after@.sinks,
                    transforms: after@.transforms,
                    enrichment_tables: after@.enrichment_tables,
                    tests: after@.tests,
                    ..merged@
                })
                &&& forall|hint: ComponentHint| #[trigger]
                    kind_is_loaded(dir.components, hint, parts, merged@, after@)
            },
{
    let files = dir.root->Ok_0;
    let (table, merged, added, read) = choose|
        table: toml::Table,
        merged: ConfigBuilder<D>,
        added: Result<(), Vec<String>>,
        read: Seq<ComponentsRead<D>>,
    |
        {
            &&& table_entries(table) == merged_root(files@).0
            &&& #[trigger] adds(before, table, whole, append, merged, added)
            &&& #[trigger] are_read(dirs_of(dir.components, hints()), parts, read)
            &&& is_end(
                with_components(merged@, merged_root(files@).1 + result_errors(added), read),
                after@,
                Ok(()),
            )
        };
    let dirs = dirs_of(dir.components, hints());
    let errors = merged_root(files@).1 + result_errors(added);
    law_dirs_in_order(dir.components);
    law_components_keep_settings(merged@, errors, read);
    assert forall|i: int, h: ComponentHint| #[trigger] is_of_kind(read, i, h) implies dirs[i].0
        == h by {
        assert(is_read(dirs[i], parts, read[i]));
    }
    lemma_one_dir_each(dir.components);
    assert forall|i: int, j: int, h: ComponentHint| #[trigger]
        is_of_kind(read, i, h) && #[trigger] is_of_kind(read, j, h) implies i == j by {
        assert(dirs[i].0 == h && dirs[j].0 == h);
    }
    lemma_kinds_filed(merged@, errors, read, ComponentHint::Source);
    if let Err(said) = added {
        assert(texts(said@).len() == said@.len());
    }
    assert(read.len() == dirs.len()) by {
        if read.len() < dirs.len() {
            assert(read[read.len() - 1] is Unlisted);
        }
    }
    assert forall|hint: ComponentHint| #[trigger]
        kind_is_loaded(dir.components, hint, parts, merged@, after@) by {
        lemma_kinds_filed(merged@, errors, read, hint);
        lemma_dir_listed(dir.components, hint);
        match dir_of(dir.components, hint) {
            None => {
                assert forall|i: int| !#[trigger] is_of_kind(read, i, hint) by {
                    if is_of_kind(read, i, hint) {
                        assert(dirs[i].0 == hint);
                    }
                }
            },
            Some(found) => {
                let i = choose|i: int| 0 <= i < dirs.len() && #[trigger] dirs[i] == (hint, found);
                assert(is_read(dirs[i], parts, read[i]));
                assert(read[i] is Read);
                assert(found is Ok);
                let inside = found->Ok_0;
                let table = choose|table: toml::Table| #[trigger]
                    is_component_table(inside@, table) && (match read[i] {
                        ComponentsRead::Unlisted(_) => false,
                        ComponentsRead::Read { errors, fragment } => errors == merged_components(
                            inside@,
                        ).1 && call_ensures(parts, (table, hint), fragment) && (
                        fragment matches Ok(components) ==> fragment_kind(components) == hint),
                    });
                let fragment = read[i]->fragment;
                assert(call_ensures(parts, (table, hint), fragment));
                if fragment is Ok {
                    assert(is_of_kind(read, i, hint));
                } else {
                    assert forall|j: int| !#[trigger] is_of_kind(read, j, hint) by {
                        if is_of_kind(read, j, hint) {
                            assert(dirs[j].0 == hint);
                            assert(j == i);
                        }
                    }
                }
                assert(is_loaded_as(found, hint, parts, merged@, after@, table, fragment));
                lemma_kind_loaded(
                    dir.components,
                    hint,
                    parts,
                    merged@,
                    after@,
                    found,
                    table,
                    fragment,
                );
            },
        }
    }
}

proof fn lemma_kind_loaded<
    D: Domain,
    P: Fn(toml::Table, ComponentHint) -> Result<Fragment<D>, Vec<String>>,
>(
    dirs: ComponentDirs,
    hint: ComponentHint,
    parts: P,
    before: ConfigBuilderView<D>,
    after: ConfigBuilderView<D>,
    read: DirResult,
    table: toml::Table,
    fragment: Result<Fragment<D>, Vec<String>>,
)
    requires
        dir_of(dirs, hint) == Some(read),
        is_loaded_as(read, hint, parts, before, after, table, fragment),
    ensures
        kind_is_loaded(dirs, hint, parts, before, after),
{
}

proof fn lemma_one_dir_each(dirs: ComponentDirs)
    ensures
        forall|i: int, j: int|
            0 <= i < dirs_of(dirs, hints()).len() && 0 <= j < dirs_of(dirs, hints()).len() && (
            #[trigger] dirs_of(dirs, hints())[i]).0 == (#[trigger] dirs_of(dirs, hints())[j]).0
                ==> i == j,
{
    law_dirs_in_order(dirs);
}

proof fn lemma_dir_listed(dirs: ComponentDirs, hint: ComponentHint)
    ensures
        match dir_of(dirs, hint) {
            Some(read) => exists|i: int|
                0 <= i < dirs_of(dirs, hints()).len() && #[trigger] dirs_of(dirs, hints())[i] == (
                    hint,
                    read,
                ),
            None => forall|i: int|
                0 <= i < dirs_of(dirs, hints()).len() ==> (#[trigger] dirs_of(dirs, hints())[i]).0
                    != hint,
        },
{
    law_dirs_in_order(dirs);
    let all = dirs_of(dirs, hints());
    let a = kind_and_dir(ComponentHint::Source, dirs.sources).len();
    let b = a + kind_and_dir(ComponentHint::Transform, dirs.transforms).len();
    let c = b + kind_and_dir(ComponentHint::Sink, dirs.sinks).len();
    let d = c + kind_and_dir(ComponentHint::Test, dirs.tests).len();
    if let Some(read) = dir_of(dirs, hint) {
        let at = match hint {
            ComponentHint::Source => 0,
            ComponentHint::Transform => a as int,
            ComponentHint::Sink => b as int,
            ComponentHint::Test => c as int,
            ComponentHint::EnrichmentTable => d as int,
        };
        assert(all[at] == (hint, read));
    }
}

/// How one place is loaded on top of what is there: a file that holds something is added as a
/// whole, one that is no configuration file changes nothing, one that could not be read is refused,
/// and a directory is loaded as a directory.
pub open spec fn place_loads<
    D: Domain,
    W: Fn(toml::Table) -> Result<ConfigBuilder<D>, Vec<String>>,
    P: Fn(toml::Table, ComponentHint) -> Result<Fragment<D>, Vec<String>>,
    A: Fn(ConfigBuilder<D>, ConfigBuilder<D>) -> (ConfigBuilder<D>, Result<(), Vec<String>>),
>(
    before: ConfigBuilder<D>,
    place: ConfigRead,
    whole: W,
    parts: P,
    append: A,
    after: ConfigBuilder<D>,
    result: Result<(), Vec<String>>,
) -> bool {
    match place {
        ConfigRead::File(Ok(Some((name, table)))) => adds(
            before,
            table,
            whole,
            append,
            after,
            result,
        ),
        ConfigRead::File(Ok(None)) => after == before && result == Ok::<(), Vec<String>>(()),
        ConfigRead::File(Err(errors)) => after == before && result == Err::<(), Vec<String>>(
            errors,
        ),
        ConfigRead::Dir(dir) => dir_loads(before, dir, whole, parts, append, after, result),
    }
}

/// A place that comes last is loaded on top of all others. (A file comes last only where there is
/// no directory.) A configuration is handed out only where nothing is said to be wrong with any
/// place.
pub proof fn law_one_more_place<
    D: Domain,
    W: Fn(toml::Table) -> Result<ConfigBuilder<D>, Vec<String>>,
    P: Fn(toml::Table, ComponentHint) -> Result<Fragment<D>, Vec<String>>,
    A: Fn(ConfigBuilder<D>, ConfigBuilder<D>) -> (ConfigBuilder<D>, Result<(), Vec<String>>),
>(
    builder: ConfigBuilder<D>,
    places: Seq<ConfigRead>,
    place: ConfigRead,
    whole: W,
    parts: P,
    append: A,
    loaded: ConfigBuilder<D>,
)
    requires
        is_load(builder, places.push(place), whole, parts, append, Ok(loaded)),
        place is File ==> forall|i: int| 0 <= i < places.len() ==> #[trigger] places[i] is File,
    ensures
        exists|before: ConfigBuilder<D>, result: Result<(), Vec<String>>|
            {
                &&& is_load(builder, places, whole, parts, append, Ok(before))
                &&& #[trigger] place_loads(before, place, whole, parts, append, loaded, result)
                &&& says_nothing(result)
            },
{
    let all = places.push(place);
    assert(all.drop_last() =~= places);
    assert(all.last() == place);
    let (states, results) = choose|
        states: Seq<ConfigBuilder<D>>,
        results: Seq<Result<(), Vec<String>>>,
    |
        {
            let wrong = all_file_errors(files_read(all)) + all_result_errors(results);
            &&& #[trigger] are_loads(
                all_tables(files_read(all)),
                dirs_read(all),
                whole,
                parts,
                append,
                states,
                results,
            )
            &&& states[0] == builder
            &&& wrong.len() == 0 && loaded == states.last()
        };
    let files = files_read(places);
    let tables = all_tables(files);
    let dirs = dirs_read(places);
    if let ConfigRead::File(file) = place {
        lemma_no_dirs(places);
        law_one_more_file(files, file);
    }
    let stays = match place {
        ConfigRead::File(Ok(Some(_))) => false,
        ConfigRead::File(_) => true,
        ConfigRead::Dir(_) => false,
    };
    if stays {
        let own: Result<(), Vec<String>> = match place {
            ConfigRead::File(Err(errors)) => Err(errors),
            _ => Ok(()),
        };
        if let ConfigRead::File(Err(errors)) = place {
            assert(texts(errors@).len() == errors@.len());
        }
        assert(are_loads(tables, dirs, whole, parts, append, states, results));
        assert((all_file_errors(files) + all_result_errors(results)).len() == 0);
        assert(is_load(builder, places, whole, parts, append, Ok(loaded)));
        assert(place_loads(loaded, place, whole, parts, append, loaded, own));
    } else {
        let last = results.len() - 1;
        let front_states = states.drop_last();
        let front = results.drop_last();
        let before = states[last];
        let own = results.last();
        assert(results[last] == own);
        assert forall|i: int| 0 <= i < tables.len() implies adds(
            front_states[i],
            tables[i].1,
            whole,
            append,
            front_states[i + 1],
            #[trigger] front[i],
        ) by {
            assert(results[i] == front[i]);
        }
        assert forall|i: int| tables.len() <= i < front.len() implies dir_loads(
            front_states[i],
            dirs[i - tables.len()],
            whole,
            parts,
            append,
            front_states[i + 1],
            #[trigger] front[i],
        ) by {
            assert(results[i] == front[i]);
        }
        assert(are_loads(tables, dirs, whole, parts, append, front_states, front));
        assert((all_file_errors(files) + all_result_errors(front)).len() == 0);
        assert(front_states.last() == before);
        assert(is_load(builder, places, whole, parts, append, Ok(before)));
        if let Err(said) = own {
            assert(texts(said@).len() == said@.len());
        }
        assert(place_loads(before, place, whole, parts, append, loaded, own));
    }
}

proof fn lemma_no_dirs(places: Seq<ConfigRead>)
    requires
        forall|i: int| 0 <= i < places.len() ==> #[trigger] places[i] is File,
    ensures
        dirs_read(places).len() == 0,
    decreases places.len(),
{
    if places.len() > 0 {
        assert(places[places.len() - 1] is File);
        lemma_no_dirs(places.drop_last());
    }
}

/// All that is wrong with a file is told, whatever else is loaded.
pub proof fn law_wrong_file_is_told<
    D: Domain,
    W: Fn(toml::Table) -> Result<ConfigBuilder<D>, Vec<String>>,
    P: Fn(toml::Table, ComponentHint) -> Result<Fragment<D>, Vec<String>>,
    A: Fn(ConfigBuilder<D>, ConfigBuilder<D>) -> (ConfigBuilder<D>, Result<(), Vec<String>>),
>(
    builder: ConfigBuilder<D>,
    places: Seq<ConfigRead>,
    whole: W,
    parts: P,
    append: A,
    result: Result<ConfigBuilder<D>, Vec<String>>,
    i: int,
    wrong: Vec<String>,
    k: int,
)
    requires
        is_load(builder, places, whole, parts, append, result),
        0 <= i < places.len(),
        places[i] == ConfigRead::File(Err(wrong)),
        0 <= k < wrong@.len(),
    ensures
        result matches Err(errors) && texts(errors@).contains(wrong@[k]@),
{
    lemma_file_error_told(places, i, wrong, k);
    let told = all_file_errors(files_read(places));
    law_wrong_files_are_told(builder, places, whole, parts, append, result);
    let at = told.index_of(wrong@[k]@);
    let errors = result->Err_0;
    assert(texts(errors@)[at] == told[at]);
}

proof fn lemma_file_error_told(places: Seq<ConfigRead>, i: int, wrong: Vec<String>, k: int)
    requires
        0 <= i < places.len(),
        places[i] == ConfigRead::File(Err(wrong)),
        0 <= k < wrong@.len(),
    ensures
        all_file_errors(files_read(places)).contains(wrong@[k]@),
    decreases places.len(),
{
    let front = places.drop_last();
    let files = files_read(front);
    if i < front.len() {
        lemma_file_error_told(front, i, wrong, k);
        let told = all_file_errors(files);
        let at = told.index_of(wrong@[k]@);
        if let ConfigRead::File(file) = places.last() {
            law_one_more_file(files, file);
        }
        assert(all_file_errors(files_read(places))[at] == told[at]);
    } else {
        law_one_more_file(files, Err(wrong));
        let told = all_file_errors(files);
        assert(texts(wrong@)[k] == wrong@[k]@);
        assert(all_file_errors(files_read(places))[told.len() + k] == wrong@[k]@);
    }
}

/// What is set on a loader stays set, and setting one thing leaves the others as they are. A loader
/// starts with environment variables put in and without secrets.
pub proof fn law_loader_settings<D: Domain>(
    builder: ConfigBuilder<D>,
    fresh: ConfigBuilderLoader<D>,
    interpolate: bool,
    first: ConfigBuilderLoader<D>,
    secrets: KeyedMap<String, String>,
    second: ConfigBuilderLoader<D>,
    allow_empty: bool,
    third: ConfigBuilderLoader<D>,
    taken: ConfigBuilder<D>,
)
    requires
        call_ensures(ConfigBuilderLoader::<D>::new, (builder,), fresh),
        call_ensures(ConfigBuilderLoader::<D>::interpolate_env, (fresh, interpolate), first),
        call_ensures(ConfigBuilderLoader::<D>::secrets, (first, secrets), second),
        call_ensures(ConfigBuilderLoader::<D>::allow_empty, (second, allow_empty), third),
        call_ensures(ConfigBuilderLoader::<D>::take, (third,), taken),
    ensures
        fresh.interpolate_env,
        fresh.secrets@.len() == 0,
        third.interpolate_env == interpolate,
        third.secrets@ == secrets@,
        taken.allow_empty == allow_empty,
        taken@ == (ConfigBuilderView { allow_empty, ..builder@ }),
{
}

/// A text that could not be read is refused for the same reasons. Without secrets it stays as it
/// was read; with secrets, it becomes what putting them in makes of it.
pub proof fn law_prepared<
    D: Domain,
    F: FnOnce(String, &KeyedMap<String, String>) -> Result<String, Vec<String>>,
>(
    loader: ConfigBuilderLoader<D>,
    read: Result<String, Vec<String>>,
    interpolate: F,
    prepared: Result<String, Vec<String>>,
)
    requires
        forall|text: String| call_requires(interpolate, (text, &loader.secrets)),
        call_ensures(
            ConfigBuilderLoader::<D>::prepare::<F>,
            (&loader, read, interpolate),
            prepared,
        ),
    ensures
        match read {
            Err(errors) => prepared matches Err(told) && told@ == errors@,
            Ok(text) => if loader.secrets@.len() == 0 {
                prepared matches Ok(same) && same@ == text@
            } else {
                call_ensures(interpolate, (text, &loader.secrets), prepared)
            },
        },
{
}

/// An input that was added is handed out as the configuration that it came to; one that was not is
/// refused for the same reasons.
pub proof fn law_input_is_loaded<D: Domain>(
    loader: ConfigBuilderLoader<D>,
    merged: Result<(), Vec<String>>,
    result: Result<ConfigBuilder<D>, Vec<String>>,
)
    requires
        call_ensures(ConfigBuilderLoader::<D>::load_from_input, (loader, merged), result),
    ensures
        merged is Ok ==> (result matches Ok(builder) && builder@ == loader.builder@),
        merged matches Err(errors) ==> (result matches Err(told) && told@ == errors@),
{
}

/// A table that is added as a whole is read as a configuration first. Where that is refused,
/// nothing is added, and the reasons are told; else what was read is added, and what comes of that
/// is told.
pub proof fn law_table_is_added<
    D: Domain,
    W: Fn(toml::Table) -> Result<ConfigBuilder<D>, Vec<String>>,
    A: Fn(ConfigBuilder<D>, ConfigBuilder<D>) -> (ConfigBuilder<D>, Result<(), Vec<String>>),
>(
    before: ConfigBuilder<D>,
    table: toml::Table,
    whole: W,
    append: A,
    after: ConfigBuilder<D>,
    result: Result<(), Vec<String>>,
)
    requires
        adds(before, table, whole, append, after, result),
    ensures
        (exists|config: ConfigBuilder<D>| #[trigger]
            call_ensures(append, (before, config), (after, result)) && call_ensures(
                whole,
                (table,),
                Ok::<ConfigBuilder<D>, Vec<String>>(config),
            )) || (after == before && (result matches Err(errors) && call_ensures(
            whole,
            (table,),
            Err::<ConfigBuilder<D>, Vec<String>>(errors),
        ))),
{
    let read = choose|read: Result<ConfigBuilder<D>, Vec<String>>| #[trigger]
        call_ensures(whole, (table,), read) && match read {
            Err(errors) => after == before && result == Err::<(), Vec<String>>(errors),
            Ok(config) => call_ensures(append, (before, config), (after, result)),
        };
    if let Ok(config) = read {
        assert(call_ensures(append, (before, config), (after, result)));
    }
}

/// The table of a directory of components has a table for each name that a file in it has, and for
/// no other; and where no two files have the same name, each is what its file holds.
pub proof fn law_component_table(files: Seq<FileResult>, table: toml::Table, name: Seq<char>)
    requires
        is_component_table(files, table),
    ensures
        table_entries(table).contains_key(name) <==> exists|i: int|
            0 <= i < files.len() && #[trigger] file_is_named(files, i, name),
        names_differ(files) ==> forall|i: int|
            0 <= i < files.len() && #[trigger] file_is_named(files, i, name) ==> table_within(
                table_entries(table)[name],
            ) == Some(table_entries(held_by(files[i]))),
{
    law_components(files, name);
    let named = tables_within(table_entries(table));
    assert(named.contains_key(name) == table_entries(table).contains_key(name));
    if named.contains_key(name) {
        assert(named[name] == table_within(table_entries(table)[name])->0);
    }
}

/// Adding components keeps the settings of a loader.
pub proof fn law_settings_are_kept<D: Domain>(
    before: ConfigBuilderLoader<D>,
    after: ConfigBuilderLoader<D>,
)
    requires
        same_settings(after, before),
    ensures
        after.secrets@ == before.secrets@,
        after.interpolate_env == before.interpolate_env,
{
}

/// The place of a kind of components in the order in which their directories are read.
pub open spec fn place_of(hint: ComponentHint) -> int {
    match hint {
        ComponentHint::Source => 0,
        ComponentHint::Transform => 1,
        ComponentHint::Sink => 2,
        ComponentHint::Test => 3,
        ComponentHint::EnrichmentTable => 4,
    }
}

proof fn lemma_dirs_by_place(dirs: ComponentDirs)
    ensures
        forall|i: int, j: int|
            0 <= i < j < dirs_of(dirs, hints()).len() ==> place_of(
                (#[trigger] dirs_of(dirs, hints())[i]).0,
            ) < place_of((#[trigger] dirs_of(dirs, hints())[j]).0),
        forall|i: int|
            0 <= i < dirs_of(dirs, hints()).len() ==> own_dir(
                dirs,
                (#[trigger] dirs_of(dirs, hints())[i]).0,
            ) == Some(dirs_of(dirs, hints())[i].1),
{
    law_dirs_in_order(dirs);
}

/// A directory that could not be read is refused for the reasons that are given, and nothing else
/// is told: where it is the directory itself, nothing is loaded of it; where it is the directory of
/// a kind of components, it is the first of these that counts.
pub proof fn law_unreadable_directories<
    D: Domain,
    W: Fn(toml::Table) -> Result<ConfigBuilder<D>, Vec<String>>,
    P: Fn(toml::Table, ComponentHint) -> Result<Fragment<D>, Vec<String>>,
    A: Fn(ConfigBuilder<D>, ConfigBuilder<D>) -> (ConfigBuilder<D>, Result<(), Vec<String>>),
>(
    before: ConfigBuilder<D>,
    dir: DirFiles,
    whole: W,
    parts: P,
    append: A,
    after: ConfigBuilder<D>,
    result: Result<(), Vec<String>>,
    hint: ComponentHint,
)
    requires
        dir_loads(before, dir, whole, parts, append, after, result),
    ensures
        dir.root matches Err(wrong) ==> after == before && (result matches Err(errors) && texts(
            errors@,
        ) == texts(wrong@)),
        dir.root is Ok && (own_dir(dir.components, hint) matches Some(Err(_))) && (forall|
            earlier: ComponentHint,
        |
            place_of(earlier) < place_of(hint) ==> !(#[trigger] own_dir(
                dir.components,
                earlier,
            ) matches Some(Err(_)))) ==> (result matches Err(errors) && texts(errors@) == texts(
            (own_dir(dir.components, hint)->Some_0->Err_0)@,
        )),
{
    if dir.root is Ok && (own_dir(dir.components, hint) matches Some(Err(_))) && (forall|
        earlier: ComponentHint,
    |
        place_of(earlier) < place_of(hint) ==> !(#[trigger] own_dir(
            dir.components,
            earlier,
        ) matches Some(Err(_)))) {
        let files = dir.root->Ok_0;
        let (table, merged, added, read) = choose|
            table: toml::Table,
            merged: ConfigBuilder<D>,
            added: Result<(), Vec<String>>,
            read: Seq<ComponentsRead<D>>,
        |
            {
                &&& table_entries(table) == merged_root(files@).0
                &&& #[trigger] adds(before, table, whole, append, merged, added)
                &&& #[trigger] are_read(dirs_of(dir.components, hints()), parts, read)
                &&& is_end(
                    with_components(merged@, merged_root(files@).1 + result_errors(added), read),
                    after@,
                    result,
                )
            };
        let dirs = dirs_of(dir.components, hints());
        let found = own_dir(dir.components, hint)->Some_0;
        let wrong = found->Err_0;
        lemma_dirs_by_place(dir.components);
        lemma_dir_listed(dir.components, hint);
        let i = choose|i: int| 0 <= i < dirs.len() && #[trigger] dirs[i] == (hint, found);
        assert forall|j: int| 0 <= j < i && j < read.len() implies #[trigger] read[j] is Read by {
            assert(is_read(dirs[j], parts, read[j]));
            assert(place_of(dirs[j].0) < place_of(dirs[i].0));
            assert(own_dir(dir.components, dirs[j].0) == Some(dirs[j].1));
        }
        if read.len() <= i {
            assert(read[read.len() - 1] is Unlisted);
        }
        assert(is_read(dirs[i], parts, read[i]));
        let front = read.take(i);
        let rest = read.skip(i + 1);
        assert forall|j: int| 0 <= j < front.len() implies #[trigger] front[j] is Read by {
            assert(read[j] is Read);
        }
        assert(read =~= front.push(ComponentsRead::Unlisted(texts(wrong@))) + rest);
        law_unlisted_directory_ends(
            merged@,
            merged_root(files@).1 + result_errors(added),
            front,
            texts(wrong@),
            rest,
        );
    }
}

proof fn lemma_wrong_file(files: Seq<FileResult>, k: int, wrong: Vec<String>, m: int)
    requires
        0 <= k < files.len(),
        files[k] == Err::<Option<(String, toml::Table)>, Vec<String>>(wrong),
        0 <= m < wrong@.len(),
    ensures
        merged_root(files).1.contains(wrong@[m]@),
        merged_components(files).1.contains(wrong@[m]@),
    decreases files.len(),
{
    let front = files.drop_last();
    let message = wrong@[m]@;
    law_one_more_file(front, files.last());
    assert(front.push(files.last()) =~= files);
    let root = merged_root(front).1;
    let named = merged_components(front).1;
    if k < front.len() {
        lemma_wrong_file(front, k, wrong, m);
        let at = root.index_of(message);
        assert(merged_root(files).1[at] == message);
        let other = named.index_of(message);
        assert(merged_components(files).1[other] == message);
    } else {
        assert(texts(wrong@)[m] == message);
        assert(merged_root(files).1[root.len() + m] == message);
        assert(merged_components(files).1[named.len() + m] == message);
    }
}

proof fn lemma_component_error<D: Domain>(
    read: Seq<ComponentsRead<D>>,
    i: int,
    wrong: Seq<Seq<char>>,
    fragment: Result<Fragment<D>, Vec<String>>,
    message: Seq<char>,
)
    requires
        0 <= i < read.len(),
        read[i] == (ComponentsRead::Read { errors: wrong, fragment }),
        wrong.contains(message) || result_errors(fragment).contains(message),
    ensures
        component_errors(read).contains(message),
    decreases read.len(),
{
    let rest = read.drop_first();
    let tail = component_errors(rest);
    let all = component_errors(read);
    if i == 0 {
        if wrong.contains(message) {
            assert(all[wrong.index_of(message)] == message);
        } else {
            let at = result_errors(fragment).index_of(message);
            assert(all[wrong.len() + at] == message);
        }
    } else {
        assert(rest[i - 1] == read[i]);
        lemma_component_error(rest, i - 1, wrong, fragment, message);
        let at = tail.index_of(message);
        assert(all[all.len() - tail.len() + at] == message);
    }
}

/// Where all directories could be read, all that is wrong with any file is told: with a file of the
/// directory itself, and with one of the directory of a kind of components.
pub proof fn law_wrong_files_in_directories<
    D: Domain,
    W: Fn(toml::Table) -> Result<ConfigBuilder<D>, Vec<String>>,
    P: Fn(toml::Table, ComponentHint) -> Result<Fragment<D>, Vec<String>>,
    A: Fn(ConfigBuilder<D>, ConfigBuilder<D>) -> (ConfigBuilder<D>, Result<(), Vec<String>>),
>(
    before: ConfigBuilder<D>,
    dir: DirFiles,
    whole: W,
    parts: P,
    append: A,
    after: ConfigBuilder<D>,
    result: Result<(), Vec<String>>,
    hint: ComponentHint,
    k: int,
    wrong: Vec<String>,
    m: int,
)
    requires
        dir_loads(before, dir, whole, parts, append, after, result),
        dir.root is Ok,
        forall|any: ComponentHint|
            !(#[trigger] own_dir(dir.components, any) matches Some(Err(_))),
        0 <= m < wrong@.len(),
        ({
            let own = (dir.root->Ok_0)@;
            0 <= k < own.len() && own[k] == Err::<Option<(String, toml::Table)>, Vec<String>>(wrong)
        }) || (own_dir(dir.components, hint) matches Some(Ok(files)) && 0 <= k < files@.len()
            && files@[k] == Err::<Option<(String, toml::Table)>, Vec<String>>(wrong)),
    ensures
        result matches Err(errors) && texts(errors@).contains(wrong@[m]@),
{
    let message = wrong@[m]@;
    let files = dir.root->Ok_0;
    let (table, merged, added, read) = choose|
        table: toml::Table,
        merged: ConfigBuilder<D>,
        added: Result<(), Vec<String>>,
        read: Seq<ComponentsRead<D>>,
    |
        {
            &&& table_entries(table) == merged_root(files@).0
            &&& #[trigger] adds(before, table, whole, append, merged, added)
            &&& #[trigger] are_read(dirs_of(dir.components, hints()), parts, read)
            &&& is_end(
                with_components(merged@, merged_root(files@).1 + result_errors(added), read),
                after@,
                result,
            )
        };
    let dirs = dirs_of(dir.components, hints());
    let root = merged_root(files@).1;
    let so_far = root + result_errors(added);
    lemma_dirs_by_place(dir.components);
    assert forall|j: int| 0 <= j < read.len() implies #[trigger] read[j] is Read by {
        assert(is_read(dirs[j], parts, read[j]));
        assert(own_dir(dir.components, dirs[j].0) == Some(dirs[j].1));
    }
    if read.len() < dirs.len() {
        assert(read[read.len() - 1] is Unlisted);
    }
    law_directory_errors(merged@, so_far, read);
    let told = so_far + component_errors(read);
    let own = files@;
    if 0 <= k < own.len() && own[k] == Err::<Option<(String, toml::Table)>, Vec<String>>(wrong) {
        lemma_wrong_file(own, k, wrong, m);
        assert(told[root.index_of(message)] == message);
    } else {
        let found = own_dir(dir.components, hint)->Some_0;
        let inside = found->Ok_0;
        lemma_wrong_file(inside@, k, wrong, m);
        lemma_dir_listed(dir.components, hint);
        let i = choose|i: int| 0 <= i < dirs.len() && #[trigger] dirs[i] == (hint, found);
        assert(is_read(dirs[i], parts, read[i]));
        assert(read[i] is Read);
        let fragment = read[i]->fragment;
        let said = read[i]->Read_errors;
        assert(said == merged_components(inside@).1);
        lemma_component_error(read, i, said, fragment, message);
        let at = component_errors(read).index_of(message);
        assert(told[so_far.len() + at] == message);
    }
}

} // verus!

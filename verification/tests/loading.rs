use vector::config::files::{
    collect_files_in_dir, component_hints, enters, file_format, ComponentHint, DirEntry, Format,
    Listing,
};
use vector::config::fragments::{collect_tables, merge_components, merge_root, FileResult};
use vector::config::loading::{
    ComponentDirs, ConfigBuilderLoader, ConfigRead, DirFiles, DirResult, Fragment,
};
use vector::config::{
    ConfigBuilder, Domain, EnrichmentTableOuter, SinkOuter, SourceOuter, TransformOuter,
};
use vector::keyed::KeyedMap;
use vector::ordered::ComponentMap;

struct Plain;

impl Domain for Plain {
    type Global = Option<String>;
    type Api = ();
    type Schema = ();
    type Healthchecks = ();
    type Source = toml::Table;
    type Transform = toml::Table;
    type Sink = toml::Table;
    type Table = toml::Table;
    type Test = toml::Table;
    type ResolvedTest = ();
    type Provider = ();
    type Secret = ();
    type Grace = ();
}

type Builder = ConfigBuilder<Plain>;
type Loader = ConfigBuilderLoader<Plain>;

fn strings(list: &[&str]) -> Vec<String> {
    list.iter().map(|item| item.to_string()).collect()
}

fn table(text: &str) -> toml::Table {
    text.parse().expect("valid TOML")
}

/// Files by path, in the order in which a directory lists them, and variables.
struct Disk {
    files: Vec<(String, String)>,
    variables: Vec<(String, String)>,
}

impl Disk {
    fn new(files: &[(&str, &str)]) -> Disk {
        let files = files.iter().map(|(path, text)| (path.to_string(), text.to_string())).collect();
        Disk { files, variables: vec![] }
    }

    fn format_of(path: &str) -> Option<Format> {
        match path.rsplit('.').next() {
            Some("toml") => Some(Format::Toml),
            Some("json") => Some(Format::Json),
            Some("yaml") | Some("yml") => Some(Format::Yaml),
            _ => None,
        }
    }

    fn has_dir(&self, dir: &str) -> bool {
        let prefix = format!("{dir}/");
        self.files.iter().any(|(path, _)| path.starts_with(&prefix))
    }

    fn list(&self, dir: &str, recurse: bool) -> Listing<String> {
        let prefix = format!("{dir}/");
        let mut seen: Vec<String> = Vec::new();
        let mut entries = Vec::new();
        for (path, _) in &self.files {
            let rest = match path.strip_prefix(&prefix) {
                Some(rest) => rest,
                None => continue,
            };
            match rest.split_once('/') {
                None => entries.push(DirEntry::File {
                    path: path.clone(),
                    format: Disk::format_of(path),
                }),
                Some((name, _)) => {
                    if seen.contains(&name.to_string()) {
                        continue;
                    }
                    seen.push(name.to_string());
                    let name = Some(name.to_string());
                    let listing = if enters(recurse, &name) {
                        self.list(&format!("{prefix}{}", name.clone().unwrap()), true)
                    } else {
                        Listing::Read(vec![])
                    };
                    entries.push(DirEntry::Dir { name, listing });
                }
            }
        }
        Listing::Read(entries)
    }

    fn process(&self, loader: &Loader, path: &str, format: Format) -> FileResult {
        assert_eq!(format, Format::Toml);
        let text = match self.files.iter().find(|(known, _)| known == path) {
            Some((_, text)) => text.clone(),
            None => return Err(vec![format!("Config file not found in path: {path}.")]),
        };
        let mut text = text;
        if loader.interpolate_env {
            for (name, value) in &self.variables {
                text = text.replace(&format!("${{{name}}}"), value);
            }
        }
        let prepared = loader.prepare(Ok(text), |text, secrets| {
            let mut text = text;
            for i in 0..secrets.len() {
                text = text.replace(&format!("SECRET[{}]", secrets.key_at(i)), secrets.value_at(i));
            }
            Ok(text)
        })?;
        let name = path.rsplit('/').next().unwrap().split('.').next().unwrap().to_string();
        match prepared.parse::<toml::Table>() {
            Ok(table) => Ok(Some((name, table))),
            Err(_) => Err(vec![format!("{path} is not valid TOML")]),
        }
    }

    fn process_all(&self, loader: &Loader, files: Vec<(String, Format)>) -> Vec<FileResult> {
        files.iter().map(|(path, format)| self.process(loader, path, *format)).collect()
    }
}

fn inputs_of(table: &toml::Table) -> Vec<String> {
    match table.get("inputs").and_then(|inputs| inputs.as_array()) {
        Some(inputs) => inputs.iter().map(|i| i.as_str().unwrap().to_string()).collect(),
        None => vec![],
    }
}

fn entries(table: toml::Table) -> Result<Vec<(String, toml::Table)>, Vec<String>> {
    let mut entries = Vec::new();
    for (key, value) in table {
        match value {
            toml::Value::Table(inner) => entries.push((key, inner)),
            _ => return Err(vec![format!("{key} is no table")]),
        }
    }
    Ok(entries)
}

fn fragment(table: toml::Table, hint: ComponentHint) -> Result<Fragment<Plain>, Vec<String>> {
    let entries = entries(table)?;
    if hint != ComponentHint::Test {
        if let Some((key, _)) = entries.iter().find(|entry| !entry.1.contains_key("type")) {
            return Err(vec![format!("{key} has no type")]);
        }
    }
    Ok(match hint {
        ComponentHint::Source => Fragment::Sources(ComponentMap::from_entries(
            entries.into_iter().map(|e| (e.0, SourceOuter { inner: e.1 })).collect(),
        )),
        ComponentHint::Transform => Fragment::Transforms(ComponentMap::from_entries(
            entries
                .into_iter()
                .map(|e| {
                    let transform = TransformOuter {
                        inputs: inputs_of(&e.1),
                        component_name: "mock".to_string(),
                        ports: vec![],
                        inner: e.1,
                    };
                    (e.0, transform)
                })
                .collect(),
        )),
        ComponentHint::Sink => Fragment::Sinks(ComponentMap::from_entries(
            entries
                .into_iter()
                .map(|e| (e.0, SinkOuter { inputs: inputs_of(&e.1), inner: e.1 }))
                .collect(),
        )),
        ComponentHint::Test => Fragment::Tests(ComponentMap::from_entries(entries)),
        ComponentHint::EnrichmentTable => Fragment::EnrichmentTables(ComponentMap::from_entries(
            entries
                .into_iter()
                .map(|e| {
                    let table = EnrichmentTableOuter {
                        inputs: inputs_of(&e.1),
                        sink: None,
                        source: None,
                        inner: e.1,
                    };
                    (e.0, table)
                })
                .collect(),
        )),
    })
}

/// Reads a whole configuration.
fn whole(table: toml::Table) -> Result<Builder, Vec<String>> {
    let mut table = table;
    let mut builder = Builder::default();
    if let Some(toml::Value::Table(sources)) = table.remove("sources") {
        for (key, inner) in entries(sources)? {
            builder.sources.insert(key, SourceOuter { inner });
        }
    }
    if let Some(toml::Value::String(dir)) = table.remove("data_dir") {
        builder.global = Some(dir);
    }
    let unknown: Vec<String> = table.keys().map(|key| format!("unknown field {key}")).collect();
    if unknown.is_empty() {
        Ok(builder)
    } else {
        Err(unknown)
    }
}

/// Adds a configuration to another: its components have to be new.
fn append(builder: Builder, more: Builder) -> (Builder, Result<(), Vec<String>>) {
    let mut builder = builder;
    let mut errors = Vec::new();
    for (key, source) in more.sources.into_entries() {
        if builder.sources.contains_key(&key) {
            errors.push(format!("duplicate source id found: {key}"));
        } else {
            builder.sources.insert(key, source);
        }
    }
    if more.global.is_some() {
        builder.global = more.global;
    }
    if errors.is_empty() {
        (builder, Ok(()))
    } else {
        (builder, Err(errors))
    }
}

fn dir_name(hint: ComponentHint) -> &'static str {
    match hint {
        ComponentHint::Source => "sources",
        ComponentHint::Transform => "transforms",
        ComponentHint::Sink => "sinks",
        ComponentHint::Test => "tests",
        ComponentHint::EnrichmentTable => "enrichment_tables",
    }
}

fn read_dir(loader: &Loader, disk: &Disk, dir: &str, recurse: bool) -> DirResult {
    let files = collect_files_in_dir(disk.list(dir, recurse), recurse)?;
    Ok(disk.process_all(loader, files))
}

/// A place that a configuration is read from.
enum ConfigPath {
    File(String, Option<Format>),
    Dir(String),
}

fn read_components(
    loader: &Loader,
    disk: &Disk,
    dir: &str,
    hint: ComponentHint,
) -> Option<DirResult> {
    let path = format!("{dir}/{}", dir_name(hint));
    if disk.has_dir(&path) {
        Some(read_dir(loader, disk, &path, hint.recurses()))
    } else {
        None
    }
}

fn read_place(loader: &Loader, disk: &Disk, path: &ConfigPath) -> ConfigRead {
    match path {
        ConfigPath::File(path, said) => {
            let format = file_format(*said, Disk::format_of(path));
            ConfigRead::File(disk.process(loader, path, format))
        }
        ConfigPath::Dir(dir) => {
            let read = |hint| read_components(loader, disk, dir, hint);
            ConfigRead::Dir(DirFiles {
                root: read_dir(loader, disk, dir, false),
                components: ComponentDirs {
                    sources: read(ComponentHint::Source),
                    transforms: read(ComponentHint::Transform),
                    sinks: read(ComponentHint::Sink),
                    tests: read(ComponentHint::Test),
                    enrichment_tables: read(ComponentHint::EnrichmentTable),
                },
            })
        }
    }
}

fn load(loader: Loader, disk: &Disk, paths: Vec<ConfigPath>) -> Result<Builder, Vec<String>> {
    let places = paths.iter().map(|path| read_place(&loader, disk, path)).collect();
    loader.load_from_paths(places, whole, fragment, append)
}

fn file(path: &str) -> ConfigPath {
    ConfigPath::File(path.to_string(), Some(Format::Toml))
}

fn dir(path: &str) -> ConfigPath {
    ConfigPath::Dir(path.to_string())
}

fn loaded(result: Result<Builder, Vec<String>>) -> Builder {
    match result {
        Ok(builder) => builder,
        Err(errors) => panic!("{errors:?}"),
    }
}

const DEMO: &str = "type = \"demo_logs\"\nformat = \"json\"\n";

#[test]
fn load_namespacing_folder() {
    let disk = Disk::new(&[
        ("success/vector.toml", "data_dir = \"/var/lib\"\n"),
        ("success/sources/apache_logs.toml", DEMO),
        (
            "success/transforms/apache_parser.toml",
            "type = \"sample\"\ninputs = [\"apache_logs\"]\n",
        ),
        ("success/sinks/es_cluster.toml", "type = \"console\"\ninputs = [\"apache_parser\"]\n"),
        ("success/tests/first.toml", "name = \"first\"\n"),
        ("success/tests/second.toml", "name = \"second\"\n"),
    ]);
    let builder =
        loaded(load(Loader::default().interpolate_env(true), &disk, vec![dir("success")]));
    assert!(builder.transforms.contains_key("apache_parser"));
    assert!(builder.sources.contains_key("apache_logs"));
    assert!(builder.sinks.contains_key("es_cluster"));
    assert_eq!(builder.tests.len(), 2);
}

#[test]
fn load_namespacing_ignore_invalid() {
    let disk = Disk::new(&[
        ("ignore-invalid/sources/logs.toml", DEMO),
        ("ignore-invalid/sources/nested/invalid.toml", "nonsense"),
        ("ignore-invalid/transforms/.hidden/invalid.toml", "nonsense"),
        ("ignore-invalid/elsewhere/invalid.toml", "nonsense"),
    ]);
    let builder =
        loaded(load(Loader::default().interpolate_env(true), &disk, vec![dir("ignore-invalid")]));
    assert_eq!(builder.sources.len(), 1);
    assert_eq!(builder.transforms.len(), 0);
}

#[test]
fn load_directory_ignores_unknown_file_formats() {
    let disk = Disk::new(&[
        ("ignore-unknown/b.csv", "a,b,c"),
        ("ignore-unknown/a.toml", "data_dir = \"/tmp\"\n"),
        ("ignore-unknown/README", "nonsense"),
    ]);
    loaded(load(Loader::default().interpolate_env(true), &disk, vec![dir("ignore-unknown")]));
}

#[test]
fn load_directory_globals() {
    let disk = Disk::new(&[
        ("globals/foo.toml", "data_dir = \"/tmp\"\n"),
        ("globals/bar.toml", "[sources.in]\ntype = \"demo_logs\"\n"),
    ]);
    let builder =
        loaded(load(Loader::default().interpolate_env(true), &disk, vec![dir("globals")]));
    assert_eq!(builder.global, Some("/tmp".to_string()));
}

#[test]
fn load_directory_globals_duplicates() {
    let disk = Disk::new(&[
        ("globals-duplicate/foo.toml", "data_dir = \"/tmp\"\n"),
        ("globals-duplicate/bar.toml", "data_dir = \"/tmp\"\n"),
    ]);
    loaded(load(Loader::default().interpolate_env(true), &disk, vec![dir("globals-duplicate")]));
}

#[test]
fn test_parallel_load_multiple_files() {
    let disk = Disk::new(&[
        ("config1.toml", "\n[sources.source1]\ntype = \"demo_logs\"\nformat = \"json\"\n"),
        ("config2.toml", "\n[sources.source2]\ntype = \"demo_logs\"\nformat = \"json\"\n"),
        ("config3.toml", "\n[sources.source3]\ntype = \"demo_logs\"\nformat = \"json\"\n"),
    ]);
    let configs = vec![file("config1.toml"), file("config2.toml"), file("config3.toml")];
    let builder = loaded(load(Loader::default().interpolate_env(false), &disk, configs));

    assert_eq!(builder.sources.len(), 3);
    assert!(builder.sources.contains_key("source1"));
    assert!(builder.sources.contains_key("source2"));
    assert!(builder.sources.contains_key("source3"));
}

#[test]
fn test_parallel_load_directory_with_components() {
    let sink = "\ntype = \"console\"\ninputs = [\"src1\"]\nencoding.codec = \"json\"\n";
    let disk = Disk::new(&[
        ("temp/sources/src1.toml", DEMO),
        ("temp/sources/src2.toml", DEMO),
        ("temp/sinks/sink1.toml", sink),
    ]);
    let builder = loaded(load(Loader::default().interpolate_env(false), &disk, vec![dir("temp")]));

    assert_eq!(builder.sources.len(), 2);
    assert!(builder.sources.contains_key("src1"));
    assert!(builder.sources.contains_key("src2"));
    assert_eq!(builder.sinks.len(), 1);
    assert!(builder.sinks.contains_key("sink1"));
}

#[test]
fn test_parallel_load_with_env_interpolation() {
    let config =
        "\n[sources.env_source]\ntype = \"demo_logs\"\nformat = \"${TEST_PARALLEL_FORMAT}\"\n";
    let mut disk = Disk::new(&[("config.toml", config)]);
    disk.variables = vec![("TEST_PARALLEL_FORMAT".to_string(), "json".to_string())];
    let configs = vec![file("config.toml")];
    let builder = loaded(load(Loader::default().interpolate_env(true), &disk, configs));

    let source = builder.sources.get("env_source").expect("the source is loaded");
    assert_eq!(source.inner.get("format").unwrap().as_str(), Some("json"));
}

#[test]
fn test_parallel_load_mixed_files_and_dirs() {
    let standalone = "\n[sources.standalone]\ntype = \"demo_logs\"\nformat = \"json\"\n";
    let disk = Disk::new(&[
        ("standalone.toml", standalone),
        ("subdir/sources/dir_source.toml", DEMO),
    ]);
    let configs = vec![file("standalone.toml"), dir("subdir")];
    let builder = loaded(load(Loader::default().interpolate_env(false), &disk, configs));

    assert_eq!(builder.sources.len(), 2);
    assert!(builder.sources.contains_key("standalone"));
    assert!(builder.sources.contains_key("dir_source"));
}

#[test]
fn default_loaders_interpolate_and_have_no_secrets() {
    let loader = Loader::default();
    assert!(loader.interpolate_env);
    assert_eq!(loader.secrets.len(), 0);
    assert!(!loader.builder.allow_empty);
    let loader = loader.allow_empty(true).interpolate_env(false);
    assert!(!loader.interpolate_env);
    assert!(loader.take().allow_empty);
}

#[test]
fn an_input_that_was_added_is_handed_out() {
    let loader = Loader::default().allow_empty(true);
    match loader.load_from_input(Ok(())) {
        Ok(builder) => assert!(builder.allow_empty),
        Err(errors) => panic!("{errors:?}"),
    }
    let refused = Loader::default().load_from_input(Err(strings(&["bad"])));
    assert_eq!(refused.err(), Some(strings(&["bad"])));
}

#[test]
fn secrets_are_put_in_where_there_are_any() {
    let refuse = |_: String, _: &KeyedMap<String, String>| Err(strings(&["secret"]));
    let loader = Loader::default();
    assert_eq!(loader.prepare(Ok("text".to_string()), refuse), Ok("text".to_string()));
    assert_eq!(loader.prepare(Err(strings(&["unread"])), refuse), Err(strings(&["unread"])));
    let mut secrets = KeyedMap::new();
    secrets.insert("key".to_string(), "value".to_string());
    let loader = loader.secrets(secrets);
    assert_eq!(loader.prepare(Ok("text".to_string()), refuse), Err(strings(&["secret"])));
    let disk = Disk::new(&[("a.toml", "data_dir = \"SECRET[key]\"\n")]);
    assert_eq!(loaded(load(loader, &disk, vec![file("a.toml")])).global, Some("value".to_string()));
}

#[test]
fn errors_of_files_come_before_errors_of_directories() {
    let disk = Disk::new(&[
        ("a.toml", "[sources.in]\ntype = \"demo_logs\"\n"),
        ("b.toml", "[sources.in]\ntype = \"demo_logs\"\n"),
        ("d/sources/broken.toml", "nonsense"),
        ("d/sources/typeless.toml", "x = 1\n"),
    ]);
    let paths = vec![dir("d"), file("a.toml"), file("absent.toml"), file("b.toml")];
    assert_eq!(
        load(Loader::default(), &disk, paths).err(),
        Some(strings(&[
            "Config file not found in path: absent.toml.",
            "duplicate source id found: in",
            "d/sources/broken.toml is not valid TOML",
            "typeless has no type",
        ]))
    );
}

#[test]
fn files_are_loaded_before_directories_wherever_they_stand() {
    let disk = Disk::new(&[
        ("a.toml", "[sources.both]\ntype = \"file\"\n"),
        ("b.toml", "data_dir = \"/b\"\n"),
        ("d/vector.toml", "data_dir = \"/d\"\n"),
        ("d/sources/both.toml", "type = \"directory\"\n"),
    ]);
    let orders = [
        vec![file("a.toml"), file("b.toml"), dir("d")],
        vec![dir("d"), file("a.toml"), file("b.toml")],
        vec![file("a.toml"), dir("d"), file("b.toml")],
    ];
    for paths in orders {
        let builder = loaded(load(Loader::default(), &disk, paths));
        assert_eq!(builder.global, Some("/d".to_string()));
        let both = builder.sources.get("both").unwrap();
        assert_eq!(both.inner.get("type").unwrap().as_str(), Some("directory"));
    }
}

#[test]
fn kinds_of_components_are_read_in_order() {
    let disk = Disk::new(&[
        ("d/enrichment_tables/e.toml", "x = 1\n"),
        ("d/sinks/k.toml", "x = 1\n"),
        ("d/sources/s.toml", "x = 1\n"),
        ("d/tests/broken.toml", "nonsense"),
        ("d/transforms/t.toml", "x = 1\n"),
    ]);
    assert_eq!(
        load(Loader::default(), &disk, vec![dir("d")]).err(),
        Some(strings(&[
            "s has no type",
            "t has no type",
            "k has no type",
            "d/tests/broken.toml is not valid TOML",
            "e has no type",
        ]))
    );
}

#[test]
fn the_format_that_is_said_goes_first() {
    assert_eq!(file_format(Some(Format::Yaml), Some(Format::Json)), Format::Yaml);
    assert_eq!(file_format(None, Some(Format::Json)), Format::Json);
    assert_eq!(file_format(None, None), Format::Toml);
}

#[test]
fn only_transforms_are_nested() {
    let hints = component_hints();
    assert_eq!(
        hints,
        vec![
            ComponentHint::Source,
            ComponentHint::Transform,
            ComponentHint::Sink,
            ComponentHint::Test,
            ComponentHint::EnrichmentTable,
        ]
    );
    for hint in hints {
        assert_eq!(hint.recurses(), hint == ComponentHint::Transform);
    }
    let disk = Disk::new(&[
        ("d/transforms/outer.toml", "type = \"sample\"\n"),
        ("d/transforms/group/inner.toml", "type = \"sample\"\n"),
        ("d/sources/group/inner.toml", DEMO),
    ]);
    let builder = loaded(load(Loader::default(), &disk, vec![dir("d")]));
    assert!(builder.transforms.contains_key("outer"));
    assert!(builder.transforms.contains_key("inner"));
    assert_eq!(builder.sources.len(), 0);
}

#[test]
fn entries_that_cannot_be_read_are_told() {
    let entries = vec![
        DirEntry::File { path: 1, format: Some(Format::Toml) },
        DirEntry::Unreadable { dir: "\"conf\"".to_string(), error: "denied".to_string() },
        DirEntry::Other,
        DirEntry::Dir {
            name: Some("nested".to_string()),
            listing: Listing::Failed(strings(&["no directory"])),
        },
    ];
    assert_eq!(
        collect_files_in_dir(Listing::Read(entries), true),
        Err(strings(&["Could not read entry in config dir: \"conf\", denied.", "no directory"]))
    );
    let failed: Listing<u8> = Listing::Failed(strings(&["unlisted"]));
    assert_eq!(collect_files_in_dir(failed, false), Err(strings(&["unlisted"])));
    assert!(enters(true, &None));
    assert!(!enters(true, &Some(".git".to_string())));
    assert!(!enters(false, &Some("nested".to_string())));
}

/// A directory with sources, and with the directories of other kinds that are given.
fn dir_with(
    root: DirResult,
    transforms: Option<DirResult>,
    sinks: Option<DirResult>,
) -> Vec<ConfigRead> {
    vec![ConfigRead::Dir(DirFiles {
        root,
        components: ComponentDirs {
            sources: Some(Ok(vec![read("in", "type = \"x\"\n")])),
            transforms,
            sinks,
            tests: None,
            enrichment_tables: None,
        },
    })]
}

#[test]
fn a_directory_that_cannot_be_listed_hides_other_errors() {
    let places = dir_with(
        Ok(vec![Err(strings(&["unread"]))]),
        Some(Err(strings(&["unlisted"]))),
        Some(Ok(vec![Err(strings(&["never told"]))])),
    );
    let result = Loader::default().load_from_paths(places, whole, fragment, append);
    assert_eq!(result.err(), Some(strings(&["unlisted"])));

    let places = dir_with(
        Ok(vec![Err(strings(&["unread"])), read("a", "unknown = 1\n")]),
        None,
        Some(Ok(vec![Err(strings(&["unread sink"]))])),
    );
    let result = Loader::default().load_from_paths(places, whole, fragment, append);
    assert_eq!(
        result.err(),
        Some(strings(&["unread", "unknown field unknown", "unread sink"]))
    );

    let places = dir_with(Err(strings(&["no root"])), None, None);
    let result = Loader::default().load_from_paths(places, whole, fragment, append);
    assert_eq!(result.err(), Some(strings(&["no root"])));
}

#[test]
fn nothing_to_load_is_no_error() {
    let loader = Loader::default().allow_empty(true);
    let builder = loaded(loader.load_from_paths(vec![], whole, fragment, append));
    assert!(builder.allow_empty);
}

#[test]
fn later_components_replace_earlier_ones_and_tests_add_up() {
    let mut loader = Loader::default();
    for version in ["one", "two"] {
        let text = format!("[a]\ntype = \"{version}\"\n");
        for hint in component_hints() {
            assert_eq!(loader.merge(fragment(table(&text), hint)), Ok(()));
        }
    }
    assert_eq!(loader.merge(Err(strings(&["bad"]))), Err(strings(&["bad"])));
    let builder = loader.take();
    assert_eq!(builder.tests.len(), 2);
    assert_eq!(builder.sinks.len(), 1);
    assert_eq!(builder.transforms.len(), 1);
    assert_eq!(builder.enrichment_tables.len(), 1);
    let source = builder.sources.get("a").unwrap();
    assert_eq!(source.inner.get("type").unwrap().as_str(), Some("two"));
}

fn read(name: &str, text: &str) -> FileResult {
    Ok(Some((name.to_string(), table(text))))
}

#[test]
fn files_at_the_top_are_merged() {
    let (root, errors) = merge_root(vec![
        read("a", "[sources.one]\ntype = \"x\"\n"),
        Ok(None),
        read("b", "list = [1]\n[sources.two]\ntype = \"y\"\n"),
        Err(strings(&["unread"])),
        read("c", "list = [2]\nname = \"n\"\n"),
    ]);
    assert_eq!(errors, strings(&["unread"]));
    assert_eq!(
        root,
        table(
            "list = [1, 2]\nname = \"n\"\n\
             [sources.one]\ntype = \"x\"\n[sources.two]\ntype = \"y\"\n"
        )
    );
}

#[test]
fn files_that_contradict_each_other_are_told() {
    let (root, errors) = merge_root(vec![read("a", "x = 1\ny = 1\n"), read("b", "x = \"one\"\n")]);
    let message = "Incompatible types at path \"$.x\", expected \"integer\" received \"string\".";
    assert_eq!(errors, strings(&[message]));
    assert_eq!(root, table("y = 1\n"));
}

#[test]
fn files_of_components_stand_under_their_names() {
    let (components, errors) = merge_components(vec![
        read("b", "type = \"x\"\n"),
        read("a", "type = \"y\"\n"),
        Err(strings(&["unread"])),
        read("b", "format = \"z\"\n"),
        Ok(None),
        read("b", "type = 7\n"),
    ]);
    let message =
        "Incompatible types at path \"$.type\", expected \"string\" received \"integer\".";
    assert_eq!(errors, strings(&["unread", message]));
    assert_eq!(components, table("[a]\ntype = \"y\"\n[b]\nformat = \"z\"\n"));
}

#[test]
fn tables_are_told_from_errors() {
    let (tables, errors) = collect_tables(vec![
        read("a", "x = 1\n"),
        Err(strings(&["one", "two"])),
        Ok(None),
        read("b", "y = 2\n"),
    ]);
    assert_eq!(
        tables,
        vec![("a".to_string(), table("x = 1\n")), ("b".to_string(), table("y = 2\n"))]
    );
    assert_eq!(errors, strings(&["one", "two"]));
}

#[test]
fn keyed_maps_hand_out_what_they_hold() {
    let mut map = KeyedMap::new();
    map.insert(Some("a".to_string()), 1);
    map.insert(None, 2);
    map.insert(Some("a".to_string()), 3);
    assert_eq!(map.get(&Some("a".to_string())), Some(&3));
    assert_eq!(map.take(&None), Some(2));
    assert_eq!(map.take(&None), None);
    assert_eq!(map.into_entries(), vec![(Some("a".to_string()), 3)]);
}

use vector::config::compiler::{
    all_sinks, all_sources, compile, names_to_check, Checks, CompileEvent, CompileState,
    GraphReport,
};
use vector::config::globs::{
    expand_globs, expand_globs_inner, invalid_patterns, is_glob_pattern, InputMatcher,
};
use vector::config::{
    Config, ConfigBuilder, Domain, EnrichmentTableOuter, OutputId, SinkOuter, SourceOuter,
    TransformOuter,
};
use vector::ordered::ComponentMap;

struct Plain;

impl Domain for Plain {
    type Global = u8;
    type Api = ();
    type Schema = ();
    type Healthchecks = bool;
    type Source = &'static str;
    type Transform = &'static str;
    type Sink = &'static str;
    type Table = ();
    type Test = &'static str;
    type ResolvedTest = &'static str;
    type Provider = ();
    type Secret = ();
    type Grace = u64;
}

type Builder = ConfigBuilder<Plain>;

fn add_source(builder: &mut Builder, key: &str) {
    builder.sources.insert(key.to_string(), SourceOuter { inner: "source" });
}

fn strings(list: &[&str]) -> Vec<String> {
    list.iter().map(|item| item.to_string()).collect()
}

fn add_transform(builder: &mut Builder, key: &str, inputs: &[&str]) {
    add_ported_transform(builder, key, inputs, "mock", &[]);
}

fn add_ported_transform(
    builder: &mut Builder,
    key: &str,
    inputs: &[&str],
    kind: &str,
    ports: &[&str],
) {
    let mut all: Vec<Option<String>> = vec![None];
    all.extend(ports.iter().map(|port| Some(port.to_string())));
    builder.transforms.insert(
        key.to_string(),
        TransformOuter {
            inputs: strings(inputs),
            component_name: kind.to_string(),
            ports: all,
            inner: "transform",
        },
    );
}

fn add_sink(builder: &mut Builder, key: &str, inputs: &[&str]) {
    builder.sinks.insert(
        key.to_string(),
        SinkOuter { inputs: strings(inputs), inner: "sink" },
    );
}

fn ok_checks() -> Checks {
    Checks { shape: Ok(()), resources: Ok(()), outputs: Ok(()), alpha: Ok(()) }
}

fn id(name: &str) -> OutputId {
    OutputId { component: name.to_string(), port: None }
}

/// The graph of a configuration whose inputs are names of components.
fn graph_of(builder: &Builder) -> GraphReport<Plain> {
    let mut inputs = ComponentMap::new();
    for i in 0..builder.transforms.len() {
        let ids = builder.transforms.value_at(i).inputs.iter().map(|input| id(input)).collect();
        inputs.insert(builder.transforms.key_at(i).clone(), ids);
    }
    for i in 0..builder.sinks.len() {
        let ids = builder.sinks.value_at(i).inputs.iter().map(|input| id(input)).collect();
        inputs.insert(builder.sinks.key_at(i).clone(), ids);
    }
    GraphReport { typecheck: Ok(()), cycles: Ok(()), inputs, tests: vec![] }
}

fn build(builder: Builder) -> Result<Config<Plain>, Vec<String>> {
    let mut state = CompileState::Naming { builder };
    loop {
        let event = match &state {
            CompileState::Naming { .. } => CompileEvent::Names(Ok(())),
            CompileState::Checking { .. } => CompileEvent::Checked(ok_checks()),
            CompileState::Graphing { builder, .. } => CompileEvent::Graph(Ok(graph_of(builder))),
            CompileState::Acknowledging { .. } => CompileEvent::Acknowledged(Ok(())),
            CompileState::Warning { .. } => CompileEvent::Warnings(vec![]),
            CompileState::Done { .. } => break,
        };
        state = compile(state, event);
    }
    match state {
        CompileState::Done { result } => result.map(|done| done.0),
        _ => unreachable!(),
    }
}

fn empty_config() -> Config<Plain> {
    Config {
        global: 0,
        api: (),
        schema: (),
        healthchecks: true,
        enrichment_tables: ComponentMap::new(),
        sources: ComponentMap::new(),
        sinks: ComponentMap::new(),
        transforms: ComponentMap::new(),
        tests: vec![],
        secret: (),
        graceful_shutdown_duration: 0,
    }
}

fn without_ports(outputs: &Vec<OutputId>) -> Vec<String> {
    outputs
        .iter()
        .map(|output| {
            assert!(output.port.is_none());
            output.component.clone()
        })
        .collect()
}

#[test]
fn glob_expansion() {
    let mut builder = Builder::default();
    add_source(&mut builder, "foo1");
    add_source(&mut builder, "foo2");
    add_source(&mut builder, "bar");
    add_transform(&mut builder, "foos", &["foo*"]);
    add_sink(&mut builder, "baz", &["foos*", "b*"]);
    add_sink(&mut builder, "quix", &["*oo*"]);
    add_sink(&mut builder, "quux", &["*"]);

    let config = build(builder).expect("build should succeed");

    assert_eq!(
        config.transforms.get("foos").map(|item| without_ports(&item.inputs)).unwrap(),
        strings(&["foo1", "foo2"])
    );
    assert_eq!(
        config.sinks.get("baz").map(|item| without_ports(&item.inputs)).unwrap(),
        strings(&["foos", "bar"])
    );
    assert_eq!(
        config.sinks.get("quux").map(|item| without_ports(&item.inputs)).unwrap(),
        strings(&["foo1", "foo2", "bar", "foos"])
    );
    assert_eq!(
        config.sinks.get("quix").map(|item| without_ports(&item.inputs)).unwrap(),
        strings(&["foo1", "foo2", "foos"])
    );
}

#[test]
fn parallel_compilation_many_components() {
    let mut builder = Builder::default();

    let num_sources = 100;
    for i in 0..num_sources {
        add_source(&mut builder, &format!("source_{i}"));
    }

    let num_transforms = 100;
    for i in 0..num_transforms {
        let input = format!("source_{}", i % num_sources);
        add_transform(&mut builder, &format!("transform_{i}"), &[&input]);
    }

    let num_sinks = 100;
    for i in 0..num_sinks {
        let input = format!("transform_{}", i % num_transforms);
        add_sink(&mut builder, &format!("sink_{i}"), &[&input]);
    }

    let config = build(builder).expect("build should succeed");

    assert_eq!(config.sources.len(), num_sources);
    assert_eq!(config.transforms.len(), num_transforms);
    assert_eq!(config.sinks.len(), num_sinks);

    for i in 0..num_sinks {
        let sink = config.sinks.get(&format!("sink_{i}")).expect("sink should exist");
        assert_eq!(sink.inputs.len(), 1, "sink_{i} should have exactly 1 input");
    }
}

#[test]
fn parallel_compilation_complex_pipeline() {
    let mut builder = Builder::default();

    add_source(&mut builder, "main_source");

    for i in 0..10 {
        add_transform(&mut builder, &format!("fanout_{i}"), &["main_source"]);
    }

    let inputs: Vec<String> = (0..10).map(|i| format!("fanout_{i}")).collect();
    let input_refs: Vec<&str> = inputs.iter().map(|s| s.as_str()).collect();
    add_sink(&mut builder, "final_sink", &input_refs);

    let config = build(builder).expect("build should succeed");

    assert_eq!(config.sources.len(), 1);
    assert_eq!(config.transforms.len(), 10);
    assert_eq!(config.sinks.len(), 1);

    let final_sink = config.sinks.get("final_sink").expect("final_sink should exist");
    assert_eq!(final_sink.inputs.len(), 10, "final_sink should have 10 inputs");
}

fn expanded(builder: Builder, sink: &str) -> Vec<String> {
    let mut builder = builder;
    expand_globs(&mut builder);
    builder.sinks.get(sink).unwrap().inputs.clone()
}

#[test]
fn glob_characters_make_a_pattern() {
    assert!(is_glob_pattern("foo*"));
    assert!(is_glob_pattern("foo?"));
    assert!(is_glob_pattern("foo[1]"));
    assert!(!is_glob_pattern("foo"));
    assert!(!is_glob_pattern(""));
}

#[test]
fn matchers_match_by_pattern_or_by_text() {
    let pattern = InputMatcher::new(&"foo?".to_string());
    assert!(matches!(pattern, InputMatcher::Pattern(_)));
    assert!(pattern.matches(&"foo1".to_string()));
    assert!(!pattern.matches(&"foo12".to_string()));
    let text = InputMatcher::new(&"foo[".to_string());
    assert!(matches!(text, InputMatcher::String(_)));
    assert!(text.matches(&"foo[".to_string()));
    assert!(!text.matches(&"foo".to_string()));
}

#[test]
fn inputs_that_pick_nothing_stay() {
    let mut builder = Builder::default();
    add_source(&mut builder, "foo");
    add_sink(&mut builder, "out", &["nothing*", "absent", "[", "foo"]);
    assert_eq!(expanded(builder, "out"), strings(&["nothing*", "absent", "[", "foo"]));
}

#[test]
fn invalid_patterns_are_listed() {
    let mut builder = Builder::default();
    add_source(&mut builder, "foo");
    add_sink(&mut builder, "out", &["a[", "foo*", "foo", "***"]);
    add_transform(&mut builder, "first", &["[", "b?"]);
    let listed = invalid_patterns(&builder);
    let pair = |component: &str, input: &str| (component.to_string(), input.to_string());
    assert_eq!(listed, vec![pair("first", "["), pair("out", "a["), pair("out", "***")]);
    assert!(invalid_patterns(&Builder::default()).is_empty());
}

#[test]
fn inputs_of_one_component_are_expanded() {
    let candidates: indexmap::IndexSet<String> = strings(&["a1", "me", "a2"]).into_iter().collect();
    let mut inputs = strings(&["a?", "*", "me", "absent", "nothing*"]);
    let id = "me".to_string();
    expand_globs_inner(&mut inputs, &id, &candidates);
    let once = strings(&["a1", "a2", "a1", "a2", "me", "absent", "nothing*"]);
    assert_eq!(inputs, once);
    expand_globs_inner(&mut inputs, &id, &candidates);
    assert_eq!(inputs, once);
}

#[test]
fn a_component_does_not_pick_itself() {
    let mut builder = Builder::default();
    add_source(&mut builder, "a1");
    add_transform(&mut builder, "a2", &["a*"]);
    let mut builder = builder;
    expand_globs(&mut builder);
    assert_eq!(builder.transforms.get("a2").unwrap().inputs, strings(&["a1"]));
}

#[test]
fn ports_are_candidates_only_where_a_pattern_has_a_dot() {
    let mut builder = Builder::default();
    add_source(&mut builder, "in");
    add_ported_transform(&mut builder, "split", &["in"], "route", &["left", "right"]);
    add_ported_transform(&mut builder, "other", &["in"], "filter", &["left"]);
    add_sink(&mut builder, "out", &["split*"]);
    assert_eq!(expanded(builder, "out"), strings(&["split"]));

    let mut builder = Builder::default();
    add_source(&mut builder, "in");
    add_ported_transform(&mut builder, "split", &["in"], "route", &["left", "right"]);
    add_ported_transform(&mut builder, "other", &["in"], "filter", &["left"]);
    add_sink(&mut builder, "out", &["*.*"]);
    assert_eq!(expanded(builder, "out"), strings(&["split.left", "split.right"]));

    let mut builder = Builder::default();
    add_ported_transform(&mut builder, "split", &["none"], "route", &["left"]);
    add_sink(&mut builder, "dotted", &["*.left"]);
    add_sink(&mut builder, "out", &["split*"]);
    assert_eq!(expanded(builder, "out"), strings(&["split", "split.left"]));
}

#[test]
fn expanding_again_changes_nothing() {
    let mut builder = Builder::default();
    add_source(&mut builder, "foo1");
    add_source(&mut builder, "foo2");
    add_sink(&mut builder, "out", &["foo*", "nothing?", "foo2"]);
    expand_globs(&mut builder);
    let once = builder.sinks.get("out").unwrap().inputs.clone();
    assert_eq!(once, strings(&["foo1", "foo2", "nothing?", "foo2"]));
    assert_eq!(expanded(builder, "out"), once);
}

#[test]
fn names_are_checked_transforms_first() {
    let mut builder = Builder::default();
    add_source(&mut builder, "s");
    add_transform(&mut builder, "t", &[]);
    add_sink(&mut builder, "k", &[]);
    assert_eq!(names_to_check(&builder), strings(&["t", "s", "k"]));
}

#[test]
fn tables_are_sinks_and_sources_too() {
    let mut builder = Builder::default();
    add_source(&mut builder, "s");
    add_sink(&mut builder, "k", &["s"]);
    builder.enrichment_tables.insert(
        "table".to_string(),
        EnrichmentTableOuter {
            inputs: strings(&["s"]),
            sink: Some(("table_in".to_string(), "table sink")),
            source: Some(("table_out".to_string(), SourceOuter { inner: "table source" })),
            inner: (),
        },
    );
    let sinks = all_sinks(&builder);
    assert_eq!(sinks.len(), 2);
    assert_eq!(sinks.key_at(1), "table_in");
    assert_eq!(*sinks.get("table_in").unwrap().inner, "table sink");
    assert_eq!(*sinks.get("table_in").unwrap().inputs, strings(&["s"]));
    let sources = all_sources(&builder);
    assert_eq!(sources.len(), 2);
    assert_eq!(sources.get("table_out").unwrap().inner, "table source");
}

fn err(text: &str) -> Result<(), Vec<String>> {
    Err(strings(&[text]))
}

fn result_of(state: CompileState<Plain>) -> Result<Vec<String>, Vec<String>> {
    match state {
        CompileState::Done { result } => result.map(|done| done.1),
        _ => panic!("the compilation is not over"),
    }
}

#[test]
fn errors_come_in_the_order_of_the_checks() {
    let state = CompileState::Naming { builder: Builder::default() };
    let state = compile(state, CompileEvent::Names(err("name")));
    let state = compile(
        state,
        CompileEvent::Checked(Checks {
            shape: err("shape"),
            resources: err("resources"),
            outputs: err("outputs"),
            alpha: err("alpha"),
        }),
    );
    let state = compile(
        state,
        CompileEvent::Graph(Ok(GraphReport {
            typecheck: err("type"),
            cycles: Err("cycle".to_string()),
            inputs: ComponentMap::new(),
            tests: vec![Ok("test")],
        })),
    );
    assert_eq!(
        result_of(state),
        Err(strings(&["name", "shape", "resources", "outputs", "alpha", "type", "cycle"]))
    );
}

#[test]
fn a_graph_that_cannot_be_built_ends_the_compilation() {
    let state = CompileState::Naming { builder: Builder::default() };
    let state = compile(state, CompileEvent::Names(err("name")));
    let state = compile(state, CompileEvent::Checked(ok_checks()));
    let state = compile(state, CompileEvent::Graph(Err(strings(&["graph"]))));
    assert_eq!(result_of(state), Err(strings(&["name", "graph"])));
}

#[test]
fn failing_tests_hide_all_other_errors() {
    let state = CompileState::Naming { builder: Builder::default() };
    let state = compile(state, CompileEvent::Names(err("name")));
    let state = compile(state, CompileEvent::Checked(ok_checks()));
    let state = compile(
        state,
        CompileEvent::Graph(Ok(GraphReport {
            typecheck: err("type"),
            cycles: Ok(()),
            inputs: ComponentMap::new(),
            tests: vec![Err(strings(&["t1"])), Ok("fine"), Err(strings(&["t2", "t3"]))],
        })),
    );
    assert_eq!(result_of(state), Err(strings(&["t1", "t2", "t3"])));
}

#[test]
fn tests_keep_their_number_and_order() {
    let mut builder = Builder::default();
    builder.tests = vec!["t1", "t2", "t3"];
    let state = CompileState::Graphing { builder, errors: vec![] };
    let state = compile(
        state,
        CompileEvent::Graph(Ok(GraphReport {
            typecheck: Ok(()),
            cycles: Ok(()),
            inputs: ComponentMap::new(),
            tests: vec![Ok("r1"), Ok("r2"), Ok("r3")],
        })),
    );
    match state {
        CompileState::Acknowledging { config } => {
            assert_eq!(config.tests, vec!["r1", "r2", "r3"]);
        }
        _ => panic!("the configuration is resolved"),
    }
}

#[test]
fn acknowledgements_may_fail_and_warnings_are_handed_on() {
    let state = CompileState::Acknowledging { config: empty_config() };
    let state = compile(state, CompileEvent::Acknowledged(err("ack")));
    assert_eq!(result_of(state), Err(strings(&["ack"])));

    let state = CompileState::Acknowledging { config: empty_config() };
    let state = compile(state, CompileEvent::Acknowledged(Ok(())));
    let state = compile(state, CompileEvent::Warnings(strings(&["careful"])));
    assert_eq!(result_of(state), Ok(strings(&["careful"])));
}

#[test]
fn reports_that_were_not_asked_for_change_nothing() {
    let state = CompileState::Naming { builder: Builder::default() };
    let state = compile(state, CompileEvent::Warnings(vec![]));
    assert!(matches!(state, CompileState::Naming { .. }));
}

#[test]
fn outputs_have_one_name() {
    assert_eq!(id("a").to_string(), "a");
    let port = OutputId { component: "a".to_string(), port: Some("b".to_string()) };
    assert_eq!(port.to_string(), "a.b");
}

#[test]
fn component_maps_keep_their_order() {
    let mut map = ComponentMap::new();
    map.insert("b".to_string(), 1);
    map.insert("a".to_string(), 2);
    map.insert("b".to_string(), 3);
    assert_eq!(map.len(), 2);
    assert!(map.contains_key("a"));
    assert!(!map.contains_key("c"));
    assert_eq!(map.get("b"), Some(&3));
    assert_eq!(map.get("c"), None);
    let mut later = ComponentMap::new();
    later.insert("c".to_string(), 4);
    later.insert("a".to_string(), 5);
    map.extend(later);
    assert_eq!(
        map.into_entries(),
        vec![("b".to_string(), 3), ("a".to_string(), 5), ("c".to_string(), 4)]
    );
}

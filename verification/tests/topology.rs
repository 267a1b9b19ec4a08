use vector::config::{
    Config, Domain, EnrichmentTableOuter, OutputId, SinkOuter, SourceOuter, TransformOuter,
};
use vector::keyed::KeyedMap;
use vector::ordered::ComponentMap;
use vector::topology::builder::{
    internal_source, pump_task_name, Builder, BuiltSink, SinkReport, SourceReport, TableReport,
    TransformControls, TransformReport, TransformReports, Wiring,
};
use vector::topology::concurrent::{ConcurrentRun, ConcurrentStep, ConcurrentWork};
use vector::topology::diff::{
    new_sinks, new_sources, new_transforms, Change, ConfigDiff, Difference,
};
use vector::topology::events::{filter_events_type, DataType, EventArray};
use vector::topology::layers::{assign_layers, Reader};
use vector::topology::outputs::finalize_outputs;
use vector::topology::pieces::{BuildWork, TopologyPieces, TopologyPiecesBuilder};
use vector::topology::run::{
    batch_len, buffer_type, default_output, healthcheck_enabled, healthcheck_result,
    ready_array_capacity, run_inline, run_mode, run_pump, select_source, source_result,
    source_sender_buffer_size, supervise_pumps, transform_concurrency_limit, BufferStage,
    HealthcheckError, HealthcheckOutcome, InlineEvent, InlineStep, PumpAction, PumpEvent,
    PumpInput, PumpStep, RunMode, SourceError, Transform, TransformNode, TransformOutput,
};
use vector::topology::schema::{
    input_definitions, layer_members, merged_definition, outputs_to_precompute, resolve_layer,
    source_schemas, start_schemas, SchemaState,
};
use vector::topology::tables::{
    reload_enrichment_tables, tables_to_load, tables_to_reload, take_over_tables, TableLoad,
};

struct Plain;

impl Domain for Plain {
    type Global = ();
    type Api = ();
    type Schema = ();
    type Healthchecks = ();
    type Source = &'static str;
    type Transform = &'static str;
    type Sink = &'static str;
    type Table = &'static str;
    type Test = ();
    type ResolvedTest = ();
    type Provider = ();
    type Secret = ();
    type Grace = ();
}

impl Wiring for Plain {
    type Sender = &'static str;
    type Receiver = &'static str;
    type Proxy = &'static str;
    type Healthcheck = u64;
    type Control = &'static str;
    type Task = &'static str;
    type Trigger = &'static str;
    type Shutdown = &'static str;
    type Metrics = &'static str;
    type Context = u8;
    type Emitter = &'static str;
    type Registry = &'static str;
}

fn id(name: &str) -> OutputId {
    OutputId { component: name.to_string(), port: None }
}

fn port(name: &str, port: &str) -> OutputId {
    OutputId { component: name.to_string(), port: Some(port.to_string()) }
}

fn strings(list: &[&str]) -> Vec<String> {
    list.iter().map(|item| item.to_string()).collect()
}

fn changes(list: &[(&str, Change)]) -> Difference {
    let mut changes = ComponentMap::new();
    for (key, change) in list {
        let change = match change {
            Change::Added => Change::Added,
            Change::Changed => Change::Changed,
            Change::Removed => Change::Removed,
        };
        changes.insert(key.to_string(), change);
    }
    Difference { changes }
}

fn config() -> Config<Plain> {
    let mut config = Config {
        global: (),
        api: (),
        schema: (),
        healthchecks: (),
        enrichment_tables: ComponentMap::new(),
        sources: ComponentMap::new(),
        sinks: ComponentMap::new(),
        transforms: ComponentMap::new(),
        tests: vec![],
        secret: (),
        graceful_shutdown_duration: (),
    };
    config.sources.insert("in".to_string(), SourceOuter { inner: "source" });
    config.sources.insert("kept".to_string(), SourceOuter { inner: "kept source" });
    config.transforms.insert(
        "split".to_string(),
        TransformOuter {
            inputs: vec![id("in")],
            component_name: "route".to_string(),
            ports: vec![],
            inner: "transform",
        },
    );
    config.sinks.insert(
        "out".to_string(),
        SinkOuter { inputs: vec![port("split", "left")], inner: "sink" },
    );
    config.enrichment_tables.insert(
        "table".to_string(),
        EnrichmentTableOuter {
            inputs: vec![id("in")],
            sink: Some(("table_in".to_string(), "table sink")),
            source: Some(("table_out".to_string(), SourceOuter { inner: "table source" })),
            inner: "table",
        },
    );
    config
}

fn diff() -> ConfigDiff {
    ConfigDiff {
        sources: changes(&[("in", Change::Added)]),
        transforms: changes(&[("split", Change::Changed)]),
        sinks: changes(&[("out", Change::Added), ("gone", Change::Removed)]),
        enrichment_tables: changes(&[
            ("table", Change::Added),
            ("table_in", Change::Added),
            ("table_out", Change::Changed),
        ]),
    }
}

fn fresh() -> (&'static str, &'static str) {
    ("fresh emitter", "fresh registry")
}

fn built_source(server: &'static str) -> SourceReport<Plain> {
    SourceReport::Built { controls: vec![(None, "source control")], pump: "pump", server }
}

fn built_sink(sender: &'static str) -> SinkReport<Plain> {
    SinkReport {
        expectations: vec![],
        built: Ok(BuiltSink {
            sender: Some(sender),
            task: "sink task",
            healthcheck: "health",
            trigger: "trigger",
        }),
    }
}

fn work() -> BuildWork<Plain> {
    BuildWork {
        table_plan: vec![TableLoad { name: "table".to_string(), keep_indexes: false }],
        tables: vec![TableReport::Loaded(())],
        sources: vec![built_source("server"), built_source("table server")],
        transforms: TransformReports::Built(vec![TransformReport::Built {
            sender: "transform sender",
            controls: TransformControls::Synchronous(vec![
                (None, "default"),
                (Some("left".to_string()), "left control"),
            ]),
            task: "transform task",
        }]),
        sinks: vec![built_sink("sink sender"), built_sink("table sink sender")],
        shutdown_coordinator: "shutdown",
        metrics_storage: "metrics",
    }
}

#[test]
fn only_what_changed_is_built() {
    let config = config();
    let diff = diff();
    let sources: Vec<String> = new_sources(&config, &diff).into_iter().map(|s| s.0).collect();
    assert_eq!(sources, strings(&["in", "table_out"]));
    let transforms: Vec<String> =
        new_transforms(&config, &diff).into_iter().map(|t| t.0).collect();
    assert_eq!(transforms, strings(&["split"]));
    let sinks: Vec<String> = new_sinks(&config, &diff).into_iter().map(|s| s.0).collect();
    assert_eq!(sinks, strings(&["out", "table_in"]));
    assert!(!diff.sinks.contains_new("gone"));
    assert!(!diff.transforms.is_added("split"));
    assert!(diff.sources.is_added("in"));
}

#[test]
fn a_builder_starts_with_what_it_is_given() {
    let config = config();
    let diff = diff();
    let builder = TopologyPiecesBuilder::<Plain>::new(&config, &diff);
    assert_eq!(builder.extra_context, 0);
    assert!(builder.utilization_registry.is_none());
    assert_eq!(builder.buffers.len(), 0);
    let mut buffers = KeyedMap::new();
    buffers.insert("out".to_string(), ("kept sender", "kept receiver"));
    let builder = builder
        .with_buffers(buffers)
        .with_extra_context(7)
        .with_utilization_registry(Some("registry"));
    assert_eq!(builder.extra_context, 7);
    assert_eq!(builder.utilization_registry, Some("registry"));
    assert_eq!(
        builder.buffers.get(&"out".to_string()),
        Some(&("kept sender", "kept receiver"))
    );
}

#[test]
fn pieces_are_put_together() {
    let config = config();
    let diff = diff();
    let pieces = match TopologyPiecesBuilder::new(&config, &diff).build(fresh, work()) {
        Ok(pieces) => pieces,
        Err(errors) => panic!("{errors:?}"),
    };
    assert_eq!(pieces.source_tasks.len(), 2);
    assert_eq!(pieces.source_tasks.get("in"), Some(&"server"));
    assert_eq!(pieces.tasks.len(), 5);
    assert_eq!(pieces.tasks.get("in"), Some(&"pump"));
    assert_eq!(pieces.tasks.get("split"), Some(&"transform task"));
    assert_eq!(pieces.tasks.get("out"), Some(&"sink task"));
    assert_eq!(pieces.inputs.len(), 3);
    assert_eq!(pieces.inputs.get("split"), Some(&("transform sender", vec![id("in")])));
    assert_eq!(pieces.inputs.get("out"), Some(&("sink sender", vec![port("split", "left")])));
    assert_eq!(pieces.healthchecks.len(), 2);
    assert_eq!(pieces.detach_triggers.get("out"), Some(&"trigger"));
    let ports = pieces.outputs.get("split").unwrap();
    assert_eq!(ports.len(), 2);
    assert_eq!(ports.get(&None), Some(&"default"));
    assert_eq!(ports.get(&Some("left".to_string())), Some(&"left control"));
    assert_eq!(pieces.shutdown_coordinator, "shutdown");
    assert_eq!(pieces.metrics_storage, "metrics");
    assert_eq!(pieces.utilization, Some(("fresh emitter", "fresh registry")));
}

#[test]
fn a_registry_that_is_passed_on_is_not_handed_out() {
    let config = config();
    let diff = diff();
    let (pieces, errors) = TopologyPieces::build_or_log_errors(
        &config,
        &diff,
        KeyedMap::new(),
        0,
        Some("registry"),
        fresh,
        work(),
    );
    assert_eq!(errors, Vec::<String>::new());
    assert_eq!(pieces.unwrap().utilization, None);
}

#[test]
fn errors_come_in_the_order_of_building() {
    let config = config();
    let diff = diff();
    let mut work = work();
    work.tables = vec![TableReport::Failed("no table".to_string())];
    work.sources = vec![SourceReport::Failed("no source".to_string()), built_source("server")];
    work.transforms =
        TransformReports::Built(vec![TransformReport::Failed("no transform".to_string())]);
    work.sinks = vec![
        SinkReport {
            expectations: strings(&["unexpected"]),
            built: Err("no sink".to_string()),
        },
        built_sink("table sink sender"),
    ];
    let expected = strings(&[
        "Enrichment Table \"table\": no table",
        "Source \"in\": no source",
        "Transform \"split\": no transform",
        "unexpected",
        "Sink \"out\": no sink",
    ]);
    let result = TopologyPieces::build(&config, &diff, KeyedMap::new(), 0, None, fresh, work);
    assert_eq!(result.err(), Some(expected));
}

#[test]
fn errors_are_handed_out_to_be_logged() {
    let config = config();
    let diff = diff();
    let mut work = work();
    work.transforms =
        TransformReports::Built(vec![TransformReport::Panicked("oh".to_string())]);
    let (pieces, errors) =
        TopologyPiecesBuilder::new(&config, &diff).build_or_log_errors(fresh, work);
    assert!(pieces.is_none());
    assert_eq!(errors, strings(&["Transform \"split\": task panicked: oh"]));
}

#[test]
fn schemas_that_fail_leave_the_transforms_out() {
    let config = config();
    let diff = diff();
    let mut work = work();
    work.transforms = TransformReports::SchemaFailed;
    let pieces = match TopologyPiecesBuilder::new(&config, &diff).build(fresh, work) {
        Ok(pieces) => pieces,
        Err(errors) => panic!("{errors:?}"),
    };
    assert!(!pieces.tasks.contains_key("split"));
    assert!(!pieces.inputs.contains_key("split"));
    assert!(pieces.tasks.contains_key("out"));
}

#[test]
fn task_transforms_have_the_default_output_only() {
    let config = config();
    let diff = diff();
    let mut builder = Builder::new(&config, &diff, KeyedMap::new(), 0, None, fresh);
    builder.build_transforms(TransformReports::Built(vec![TransformReport::Built {
        sender: "sender",
        controls: TransformControls::Task("control"),
        task: "task",
    }]));
    assert_eq!(builder.outputs.len(), 1);
    assert_eq!(builder.outputs.get(&id("split")), Some(&"control"));
}

fn kept() -> KeyedMap<String, (&'static str, &'static str)> {
    let mut buffers = KeyedMap::new();
    buffers.insert("other".to_string(), ("other sender", "other receiver"));
    buffers.insert("table_in".to_string(), ("kept sender", "kept receiver"));
    buffers
}

fn kept_sink() -> SinkReport<Plain> {
    SinkReport {
        expectations: vec![],
        built: Ok(BuiltSink {
            sender: None,
            task: "sink task",
            healthcheck: "health",
            trigger: "trigger",
        }),
    }
}

#[test]
fn buffers_that_are_kept_are_used_once() {
    let config = config();
    let diff = diff();
    let pieces = TopologyPiecesBuilder::<Plain>::new(&config, &diff).with_buffers(kept());
    assert_eq!(pieces.sink_receivers(), vec![None, Some("kept receiver")]);
    let mut builder = pieces.start(fresh);
    builder.build_sinks(vec![built_sink("sink sender"), kept_sink()]);
    assert_eq!(builder.inputs.get("out").unwrap().0, "sink sender");
    assert_eq!(builder.inputs.get("table_in").unwrap().0, "kept sender");
    assert_eq!(builder.inputs.get("table_in").unwrap().1, vec![id("in")]);
    assert_eq!(builder.buffers.len(), 1);
    assert_eq!(builder.buffers.key_at(0), "other");
    assert_eq!(builder.buffers.value_at(0), &("other sender", "other receiver"));
}

#[test]
fn a_buffer_is_handed_out_to_the_first_sink_of_its_name() {
    let mut config = config();
    let diff = diff();
    config.sinks.insert(
        "table_in".to_string(),
        SinkOuter { inputs: vec![id("split")], inner: "sink of the name" },
    );
    let mut sinks = diff;
    sinks.sinks = changes(&[("table_in", Change::Added)]);
    let pieces = TopologyPiecesBuilder::<Plain>::new(&config, &sinks).with_buffers(kept());
    assert_eq!(pieces.sink_receivers(), vec![Some("kept receiver"), None]);
}

#[test]
fn a_buffer_is_used_up_where_its_sink_cannot_be_built() {
    let config = config();
    let diff = diff();
    let mut work = work();
    let failed = SinkReport { expectations: vec![], built: Err("no sink".to_string()) };
    work.sinks = vec![built_sink("sink sender"), failed];
    let mut builder = TopologyPiecesBuilder::<Plain>::new(&config, &diff)
        .with_buffers(kept())
        .start(fresh);
    builder.build_sinks(work.sinks);
    assert_eq!(builder.errors, strings(&["Sink \"table_in\": no sink"]));
    assert_eq!(builder.buffers.len(), 1);
    assert!(builder.inputs.get("table_in").is_none());
}

#[test]
fn pieces_are_fed_through_kept_buffers() {
    let config = config();
    let diff = diff();
    let mut work = work();
    work.sinks = vec![built_sink("sink sender"), kept_sink()];
    let built = TopologyPiecesBuilder::new(&config, &diff).with_buffers(kept()).build(fresh, work);
    let pieces = match built {
        Ok(pieces) => pieces,
        Err(errors) => panic!("{errors:?}"),
    };
    assert_eq!(pieces.inputs.get("table_in"), Some(&("kept sender", vec![id("in")])));
    assert_eq!(pieces.inputs.get("out").unwrap().0, "sink sender");
}

#[test]
fn tables_that_need_it_are_loaded() {
    let mut config = config();
    for name in ["second", "third"] {
        config.enrichment_tables.insert(
            name.to_string(),
            EnrichmentTableOuter { inputs: vec![], sink: None, source: None, inner: "table" },
        );
    }
    let plan = tables_to_load(&config, &diff(), &vec![true, false, true]);
    assert_eq!(plan.len(), 2);
    assert_eq!((plan[0].name.as_str(), plan[0].keep_indexes), ("table", false));
    assert_eq!((plan[1].name.as_str(), plan[1].keep_indexes), ("third", true));
    let plan = tables_to_reload(&config, &vec![true, true, false]);
    assert_eq!(plan.len(), 2);
    assert!(plan[0].keep_indexes && plan[1].keep_indexes);
    let (tables, messages) = reload_enrichment_tables(
        &plan,
        vec![TableReport::Failed("gone".to_string()), TableReport::Loaded(2)],
    );
    assert_eq!(messages, strings(&["Enrichment table \"table\" reload failed: gone"]));
    assert_eq!(tables.into_entries(), vec![("second".to_string(), 2)]);
    let (tables, messages) = reload_enrichment_tables(
        &plan,
        vec![TableReport::<u8>::IndexFailed("no index".to_string()), TableReport::Loaded(2)],
    );
    assert_eq!(
        messages,
        strings(&["Unable to add index to reloaded enrichment table \"table\": no index"])
    );
    assert_eq!(tables.into_entries(), vec![("second".to_string(), 2)]);
}

#[test]
fn a_table_whose_index_fails_is_left_out_without_an_error() {
    let config = config();
    let diff = diff();
    let mut builder = Builder::<Plain>::new(&config, &diff, KeyedMap::new(), 0, None, fresh);
    let plan = vec![TableLoad { name: "table".to_string(), keep_indexes: true }];
    let reports = vec![TableReport::<u8>::IndexFailed("no".to_string())];
    let (tables, outcomes, messages) = take_over_tables(&plan, reports);
    assert_eq!(tables.len(), 0);
    assert_eq!(
        messages,
        strings(&["Unable to add index to reloaded enrichment table \"table\": no"])
    );
    builder.load_enrichment_tables(&plan, outcomes);
    assert_eq!(builder.errors, Vec::<String>::new());
}

#[test]
fn tables_that_were_built_are_taken_over() {
    let config = config();
    let diff = diff();
    let mut builder = Builder::<Plain>::new(&config, &diff, KeyedMap::new(), 0, None, fresh);
    let plan = vec![
        TableLoad { name: "first".to_string(), keep_indexes: false },
        TableLoad { name: "second".to_string(), keep_indexes: false },
    ];
    let reports = vec![TableReport::Failed("gone".to_string()), TableReport::Loaded(2)];
    let (tables, outcomes, messages) = take_over_tables(&plan, reports);
    assert_eq!(messages, Vec::<String>::new());
    assert_eq!(tables.into_entries(), vec![("second".to_string(), 2)]);
    builder.load_enrichment_tables(&plan, outcomes);
    assert_eq!(builder.errors, strings(&["Enrichment Table \"first\": gone"]));
}

#[test]
fn outputs_are_grouped_by_component() {
    let mut outputs = KeyedMap::new();
    outputs.insert(id("a"), 1);
    outputs.insert(port("b", "x"), 2);
    outputs.insert(port("a", "x"), 3);
    outputs.insert(id("a"), 4);
    let grouped = finalize_outputs(outputs);
    assert_eq!(grouped.len(), 2);
    let ports = grouped.get("a").unwrap();
    assert_eq!(ports.get(&None), Some(&4));
    assert_eq!(ports.get(&Some("x".to_string())), Some(&3));
    assert_eq!(grouped.get("b").unwrap().get(&None), None);
}

fn layers_of(transforms: &[(&str, &[&str])], sources: &[&str]) -> (Vec<usize>, usize) {
    let keys: Vec<String> = transforms.iter().map(|t| t.0.to_string()).collect();
    let inputs: Vec<Vec<OutputId>> =
        transforms.iter().map(|t| t.1.iter().map(|name| id(name)).collect()).collect();
    let mut readers = Vec::new();
    for i in 0..keys.len() {
        readers.push(Reader { key: &keys[i], inputs: &inputs[i] });
    }
    let mut known = ComponentMap::new();
    for source in sources {
        known.insert(source.to_string(), ());
    }
    assign_layers(&readers, &known)
}

#[test]
fn transforms_stand_behind_what_they_read() {
    let transforms: [(&str, &[&str]); 5] = [
        ("last", &["middle", "first"]),
        ("middle", &["first", "in"]),
        ("first", &["in"]),
        ("alone", &["elsewhere"]),
        ("late", &["last"]),
    ];
    assert_eq!(layers_of(&transforms, &["in"]), (vec![2, 1, 0, 0, 3], 4));
}

#[test]
fn circles_share_the_last_layer() {
    let transforms: [(&str, &[&str]); 4] =
        [("a", &["b"]), ("b", &["a"]), ("free", &["in"]), ("behind", &["a", "free"])];
    assert_eq!(layers_of(&transforms, &["in"]), (vec![1, 1, 0, 1], 2));
    assert_eq!(layers_of(&[("self", &["self"])], &[]), (vec![0], 1));
    assert_eq!(layers_of(&[], &["in"]), (vec![], 0));
}

#[test]
fn circles_are_worked_out_all_at_once() {
    let names = ["a", "b", "free", "behind"];
    let transforms: [(&str, &[&str]); 4] =
        [("a", &["b"]), ("b", &["a"]), ("free", &["in"]), ("behind", &["a", "free"])];
    let (layers, count) = layers_of(&transforms, &["in"]);
    let mut state = start_schemas::<&str>(count);
    let mut rounds = Vec::new();
    loop {
        let members = match &state {
            SchemaState::Layer { index, .. } => layer_members(&layers, *index),
            _ => break,
        };
        let results: Vec<(String, Result<Vec<(OutputId, &str)>, ()>)> =
            members.iter().map(|i| (names[*i].to_string(), Ok(vec![]))).collect();
        rounds.push(members);
        state = resolve_layer(state, count, results);
    }
    assert_eq!(rounds, vec![vec![2], vec![0, 1, 3]]);
    match state {
        SchemaState::Resolved { definitions } => {
            for name in names {
                assert!(definitions.contains_key(name));
            }
        }
        _ => panic!("every transform is worked out"),
    }
}

#[test]
fn a_source_goes_before_a_transform_of_its_name() {
    let transforms: [(&str, &[&str]); 2] = [("reader", &["both"]), ("both", &["reader"])];
    assert_eq!(layers_of(&transforms, &["both"]), (vec![0, 1], 2));
}

#[test]
fn layers_are_worked_out_in_turn() {
    let layers = vec![1, 0, 1, 2];
    assert_eq!(layer_members(&layers, 1), vec![0, 2]);
    assert_eq!(layer_members(&layers, 3), Vec::<usize>::new());

    let state = start_schemas::<&str>(2);
    let first: Vec<(String, Result<Vec<(OutputId, &str)>, ()>)> =
        vec![("a".to_string(), Ok(vec![(id("in"), "schema")]))];
    let state = resolve_layer(state, 2, first);
    match &state {
        SchemaState::Layer { index, definitions } => {
            assert_eq!(*index, 1);
            assert!(outputs_to_precompute(definitions, true, "a").is_none());
            assert!(outputs_to_precompute(definitions, false, "b").is_none());
            let from = outputs_to_precompute(definitions, false, "a").unwrap();
            assert_eq!(*from, vec![(id("in"), "schema")]);
        }
        _ => panic!("a layer is left"),
    }
    let second: Vec<(String, Result<Vec<(OutputId, &str)>, ()>)> =
        vec![("b".to_string(), Ok(vec![]))];
    match resolve_layer(state, 2, second) {
        SchemaState::Resolved { definitions } => {
            assert_eq!(input_definitions(&definitions, "a"), vec![(id("in"), "schema")]);
            assert_eq!(input_definitions(&definitions, "c"), vec![]);
        }
        _ => panic!("no layer is left"),
    }
}

#[test]
fn a_failure_ends_the_work_on_layers() {
    let results: Vec<(String, Result<Vec<(OutputId, u8)>, &str>)> =
        vec![("a".to_string(), Err("no")), ("b".to_string(), Ok(vec![]))];
    assert!(matches!(resolve_layer(start_schemas::<u8>(2), 2, results), SchemaState::Failed));
    assert!(matches!(start_schemas::<u8>(0), SchemaState::Resolved { .. }));
}

#[test]
fn schemas_are_merged_from_the_left() {
    let merge = |a: String, b: String| format!("({a}{b})");
    let any = || "any".to_string();
    assert_eq!(merged_definition(strings(&["a", "b", "c"]), merge, any), "((ab)c)");
    assert_eq!(merged_definition(strings(&["a"]), merge, any), "a");
    assert_eq!(merged_definition(vec![], merge, any), "any");
}

#[test]
fn outputs_without_a_schema_are_left_out() {
    let schemas = source_schemas(vec![
        (None, Some(1)),
        (Some("x".to_string()), None),
        (Some("y".to_string()), Some(2)),
        (None, Some(3)),
    ]);
    assert_eq!(schemas.into_entries(), vec![(None, 3), (Some("y".to_string()), 2)]);
}

#[test]
fn names_of_sources() {
    assert_eq!(pump_task_name("demo_logs", "in"), ">> demo_logs (in, pump) >>");
    assert!(internal_source(&"internal_logs".to_string()));
    assert!(internal_source(&"internal_metrics".to_string()));
    assert!(!internal_source(&"demo_logs".to_string()));
}

#[test]
fn sizes() {
    assert_eq!(transform_concurrency_limit(Some(3), 8), 3);
    assert_eq!(transform_concurrency_limit(None, 8), 8);
    assert_eq!(source_sender_buffer_size(8, 1000), 8000);
    assert_eq!(ready_array_capacity(1000), 4000);
}

#[test]
fn components_are_built_with_what_the_configuration_says() {
    let config = config();
    let diff = diff();
    let builder = TopologyPiecesBuilder::<Plain>::new(&config, &diff).with_extra_context(5);
    let proxy = |_: &(), own: &&'static str| if *own == "own" { "merged" } else { "other" };
    let key = "in".to_string();
    let outputs = vec![(None, Some("schema")), (Some("x".to_string()), None)];
    let name = "internal_logs".to_string();
    let context = builder.source_context(&key, &name, &"own", proxy, true, outputs);
    assert_eq!(context.proxy, "merged");
    assert!(context.acknowledgements);
    assert_eq!(context.key, "in");
    assert_eq!(context.pump_name, ">> internal_logs (in, pump) >>");
    assert!(context.internal);
    assert_eq!(*context.extra_context, 5);
    assert_eq!(context.schema_definitions.into_entries(), vec![(None, "schema")]);

    let key = "split".to_string();
    let context = builder.transform_context(
        &key,
        vec![1, 2, 4],
        vec![(None, "first"), (Some("x".to_string()), "port"), (None, "second")],
        |a, b| a + b,
        || 0,
    );
    assert_eq!(context.key, "split");
    assert_eq!(context.merged_schema_definition, 7);
    assert_eq!(*context.extra_context, 5);
    assert_eq!(
        context.schema_definitions.into_entries(),
        vec![(None, "second"), (Some("x".to_string()), "port")]
    );

    let key = "out".to_string();
    let context =
        builder.sink_context(&key, &"own", proxy, 3, "Vector".to_string(), "vector".to_string());
    assert_eq!(context.healthcheck, 3);
    assert_eq!(context.key, "out");
    assert_eq!(context.proxy, "merged");
    assert_eq!((context.app_name.as_str(), context.app_name_slug.as_str()), ("Vector", "vector"));
    assert_eq!(*context.extra_context, 5);
}

#[test]
fn pumps_pass_on_what_they_get() {
    assert!(matches!(run_pump::<u8, &str>(PumpInput::Received(3)), PumpAction::Send(3)));
    assert!(matches!(run_pump::<u8, &str>(PumpInput::Sent(Ok(()))), PumpAction::Receive));
    assert!(matches!(
        run_pump::<u8, &str>(PumpInput::Sent(Err("e"))),
        PumpAction::Stop(Err("e"))
    ));
    assert!(matches!(run_pump::<u8, &str>(PumpInput::Closed), PumpAction::Stop(Ok(()))));
}

#[test]
fn pumps_are_supervised() {
    assert!(matches!(supervise_pumps::<&str, &str>(PumpEvent::Ended(Ok(()))), PumpStep::Wait));
    match supervise_pumps::<&str, &str>(PumpEvent::Ended(Err("e"))) {
        PumpStep::Stop { report, result } => assert_eq!((report, result), (Some("e"), Ok(()))),
        PumpStep::Wait => panic!("an error ends it"),
    }
    match supervise_pumps::<&str, &str>(PumpEvent::Lost("j")) {
        PumpStep::Stop { report, result } => assert_eq!((report, result), (None, Err("j"))),
        PumpStep::Wait => panic!("a lost pump ends it"),
    }
    match supervise_pumps::<&str, &str>(PumpEvent::NoneLeft) {
        PumpStep::Stop { report, result } => assert_eq!((report, result), (None, Ok(()))),
        PumpStep::Wait => panic!("nothing is left to wait for"),
    }
}

#[test]
fn sources_end_by_what_weighs_most() {
    assert!(matches!(select_source(true, Some("e"), Some(Err(()))), Some(Ok(()))));
    assert!(matches!(
        select_source(false, Some("e"), Some(Ok(()))),
        Some(Err(SourceError::Pump("e")))
    ));
    assert!(matches!(
        select_source::<&str>(false, None, Some(Err(()))),
        Some(Err(SourceError::Opaque))
    ));
    assert!(matches!(select_source::<&str>(false, None, Some(Ok(()))), Some(Ok(()))));
    assert!(select_source::<&str>(false, None, None).is_none());
    assert!(matches!(
        source_result(Err(SourceError::Opaque), Some("late")),
        Err(SourceError::Pump("late"))
    ));
    assert!(source_result::<&str>(Ok(()), None).is_ok());
}

#[test]
fn healthchecks_and_buffers_of_sinks() {
    assert!(healthcheck_enabled(true, true));
    assert!(!healthcheck_enabled(true, false));
    assert!(!healthcheck_enabled(false, true));
    assert!(healthcheck_result::<u8, u8>(None).is_ok());
    assert!(healthcheck_result::<u8, u8>(Some(HealthcheckOutcome::Passed)).is_ok());
    assert!(matches!(
        healthcheck_result::<u8, u8>(Some(HealthcheckOutcome::Failed(1))),
        Err(HealthcheckError::Failed(1))
    ));
    assert!(matches!(
        healthcheck_result::<u8, u8>(Some(HealthcheckOutcome::TimedOut(2))),
        Err(HealthcheckError::TimedOut(2))
    ));
    assert_eq!(buffer_type(&vec![BufferStage::Memory, BufferStage::DiskV2]), "memory");
    assert_eq!(buffer_type(&vec![BufferStage::DiskV2]), "disk");
}

type Batch = EventArray<u8, u8, u8>;

#[test]
fn batches_are_filtered_by_kind() {
    let both = DataType { log: true, metric: true, trace: false };
    assert!(filter_events_type(&Batch::Logs(vec![]), DataType::log()));
    assert!(!filter_events_type(&Batch::Metrics(vec![]), DataType::log()));
    assert!(filter_events_type(&Batch::Metrics(vec![]), both));
    assert!(!filter_events_type(&Batch::Traces(vec![]), both));
    assert!(filter_events_type(&Batch::Traces(vec![]), DataType::trace()));
    assert!(both.contains(DataType::metric()));
    assert!(!DataType::metric().contains(both));
}

#[test]
fn transforms_are_run_by_their_kind() {
    type Any = Transform<u8, u8, u8>;
    assert_eq!(run_mode(&Any::Function(0), true), RunMode::Concurrent);
    assert_eq!(run_mode(&Any::Synchronous(0), false), RunMode::Inline);
    assert_eq!(run_mode(&Any::Task(0), true), RunMode::Task);
    let config = config();
    let node = TransformNode::from_parts(
        "split".to_string(),
        config.transforms.get("split").unwrap(),
        DataType::log(),
        vec!["output"],
        true,
    );
    assert_eq!(node.key, "split");
    assert_eq!(node.typetag, "route");
    assert_eq!(node.inputs, vec![id("in")]);
    assert_eq!(node.outputs, vec!["output"]);
    assert!(node.enable_concurrency);
}

#[test]
fn the_default_output_is_the_first_without_a_port() {
    let outputs = vec![
        TransformOutput { port: Some("x".to_string()), log_schema_definitions: 1 },
        TransformOutput { port: None, log_schema_definitions: 2 },
        TransformOutput { port: None, log_schema_definitions: 3 },
    ];
    assert_eq!(*default_output(&outputs), 2);
}

#[test]
fn events_of_batches_are_counted() {
    let batches = vec![Batch::Logs(vec![1, 2]), Batch::Metrics(vec![]), Batch::Traces(vec![3])];
    assert_eq!(batch_len(&batches), 3);
    assert_eq!(batch_len(&Vec::<Batch>::new()), 0);
}

#[test]
fn inline_transforms_take_one_batch_after_the_other() {
    type Event = InlineEvent<u8, u8, u8, &'static str>;
    match run_inline(DataType::log(), Event::Received(Batch::Logs(vec![1, 2]))) {
        InlineStep::Work { batch, len } => assert_eq!((batch.len(), len), (2, 2)),
        _ => panic!("the batch is taken"),
    }
    let step = run_inline(DataType::log(), Event::Received(Batch::Traces(vec![1])));
    assert!(matches!(step, InlineStep::Receive));
    assert!(matches!(run_inline(DataType::log(), Event::Sent(Ok(()))), InlineStep::Receive));
    let step = run_inline(DataType::log(), Event::Sent(Err("e")));
    assert!(matches!(step, InlineStep::Stop(Err("e"))));
    assert!(matches!(run_inline(DataType::log(), Event::Closed), InlineStep::Stop(Ok(()))));
}

fn take_logs(run: &mut ConcurrentRun, events: Vec<u8>) -> ConcurrentWork<u8, u8, u8> {
    run.took(DataType::log(), Some(vec![Batch::Logs(events)])).unwrap()
}

#[test]
fn concurrent_transforms_drain_before_they_end() {
    let mut run = ConcurrentRun::new();
    assert_eq!(run.run_concurrently(2, true, true), ConcurrentStep::Take);
    assert_eq!(run.run_concurrently(2, true, false), ConcurrentStep::Wait);
    assert_eq!(take_logs(&mut run, vec![1]).number, 0);
    assert_eq!(take_logs(&mut run, vec![2, 3]).number, 1);
    assert_eq!(run.run_concurrently(2, false, true), ConcurrentStep::Wait);
    assert_eq!(run.run_concurrently(2, true, true), ConcurrentStep::Give(0));
    assert!(run.gave::<&str>(Ok(())).is_none());
    assert_eq!(run.run_concurrently(2, false, true), ConcurrentStep::Take);
    assert!(run.took::<u8, u8, u8>(DataType::log(), None).is_none());
    assert_eq!(run.run_concurrently(2, false, true), ConcurrentStep::Wait);
    assert_eq!(run.run_concurrently(2, true, true), ConcurrentStep::Give(1));
    assert!(run.gave::<&str>(Ok(())).is_none());
    assert_eq!(run.run_concurrently(2, false, false), ConcurrentStep::Stop);
    assert_eq!(ConcurrentRun::new().run_concurrently(0, true, true), ConcurrentStep::Again);
}

#[test]
fn concurrent_transforms_keep_the_order() {
    let mut run = ConcurrentRun::new();
    let mut taken = Vec::new();
    let mut given = Vec::new();
    for round in 0..5u8 {
        taken.push(take_logs(&mut run, vec![round]).number);
        taken.push(take_logs(&mut run, vec![round]).number);
        if let ConcurrentStep::Give(number) = run.run_concurrently(100, true, true) {
            given.push(number);
            assert!(run.gave::<&str>(Ok(())).is_none());
        }
    }
    assert_eq!(taken, (0..10).collect::<Vec<u64>>());
    assert_eq!(given, vec![0, 1, 2, 3, 4]);
    assert_eq!(run.in_flight, vec![5, 6, 7, 8, 9]);
}

#[test]
fn concurrent_transforms_end_where_nothing_can_be_given_out() {
    let mut run = ConcurrentRun::new();
    take_logs(&mut run, vec![1]);
    take_logs(&mut run, vec![2]);
    take_logs(&mut run, vec![3]);
    assert!(run.gave::<&str>(Ok(())).is_none());
    assert_eq!(run.gave(Err("closed")), Some(Err("closed")));
    assert!(!run.may_give());
    assert!(!run.may_take(10));
    assert_eq!(run.run_concurrently(10, true, true), ConcurrentStep::Stop);
}

#[test]
fn concurrent_transforms_drop_what_they_do_not_take() {
    let mut run = ConcurrentRun::new();
    let mixed =
        vec![Batch::Logs(vec![1, 2]), Batch::Metrics(vec![3]), Batch::Logs(vec![4])];
    let work = run.took(DataType::log(), Some(mixed)).unwrap();
    assert_eq!((work.number, work.len, work.batches.len()), (0, 3, 2));
    assert!(matches!(&work.batches[0], Batch::Logs(logs) if *logs == vec![1, 2]));
    assert!(matches!(&work.batches[1], Batch::Logs(logs) if *logs == vec![4]));
    assert!(run.took(DataType::log(), Some(vec![Batch::Traces(vec![5])])).is_none());
    assert_eq!(run.in_flight, vec![0]);
    assert_eq!(take_logs(&mut run, vec![6]).number, 1);
}

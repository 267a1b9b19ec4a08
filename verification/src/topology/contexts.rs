//! What components are built with.

use vstd::prelude::*;

use crate::config::ComponentKey;
use crate::keyed::{texted, KeyedMap};
use crate::ordered::{
    distinct_keys, extended, has_key, lemma_extended_last, lemma_upsert_has_key, lookup,
    ComponentMap,
};
use crate::text::opt_text;
use crate::topology::builder::{
    internal_source, is_internal_source, kept_buffers, law_buffers_are_handed_out_once,
    lemma_sink_plan, named_before, pump_name, pump_task_name, sink_plan, Wiring,
};
use crate::topology::diff::new_sinks;
use crate::topology::outputs::PortMap;
use crate::topology::pieces::TopologyPiecesBuilder;
use crate::topology::schema::{
    has_schema, is_merge, known_schemas, law_one_more_definition, lemma_known_schemas,
    merged_definition, source_schemas,
};

verus! {

/// What a source is built with, beside the handles that it is given to run.
pub struct SourceContext<'a, W: Wiring, F> {
    pub key: &'a ComponentKey,
    pub globals: &'a W::Global,
    /// The proxy that the source goes through.
    pub proxy: W::Proxy,
    /// Whether a sink that the source feeds acknowledges events.
    pub acknowledgements: bool,
    pub schema: &'a W::Schema,
    pub schema_definitions: PortMap<F>,
    pub extra_context: &'a W::Context,
    /// The name of the task that moves the events of the source to its outputs.
    pub pump_name: String,
    /// Whether the source reports on the process itself.
    pub internal: bool,
}

/// What a transform is built with, beside the handles that it is given to run.
pub struct TransformContext<'a, W: Wiring, F, S> {
    pub key: &'a ComponentKey,
    pub globals: &'a W::Global,
    pub schema: &'a W::Schema,
    pub schema_definitions: PortMap<S>,
    pub merged_schema_definition: F,
    pub extra_context: &'a W::Context,
}

/// What a sink is built with, beside the handles that it is given to run.
pub struct SinkContext<'a, W: Wiring> {
    pub key: &'a ComponentKey,
    pub globals: &'a W::Global,
    /// The proxy that the sink goes through.
    pub proxy: W::Proxy,
    pub schema: &'a W::Schema,
    /// How the sink is checked, as it says itself.
    pub healthcheck: W::Healthcheck,
    /// The name of the application.
    pub app_name: String,
    /// The name of the application, as it may stand in an address.
    pub app_name_slug: String,
    pub extra_context: &'a W::Context,
}

/// The receiving halves that are handed out are those of the buffers that are kept.
pub open spec fn are_receivers<S, R: Clone>(
    receivers: Seq<Option<R>>,
    kept: Seq<Option<(S, R)>>,
) -> bool {
    &&& receivers.len() == kept.len()
    &&& forall|i: int|
        0 <= i < receivers.len() ==> match (#[trigger] receivers[i], kept[i]) {
            (Some(receiver), Some(buffer)) => cloned(buffer.1, receiver),
            (None, None) => true,
            _ => false,
        }
}

impl<'a, W: Wiring> TopologyPiecesBuilder<'a, W> {
    /// What a source is built with. The proxy is that of the source, merged with the global one
    /// and with what the environment says. Of the outputs, only those with a schema are spoken of.
    pub fn source_context<'b, F, P: FnOnce(&W::Global, &W::Proxy) -> W::Proxy>(
        &'b self,
        key: &'b ComponentKey,
        component_name: &String,
        own_proxy: &W::Proxy,
        merge_proxy: P,
        sink_acknowledgements: bool,
        outputs: Vec<(Option<String>, Option<F>)>,
    ) -> (context: SourceContext<'b, W, F>)
        requires
            call_requires(merge_proxy, (&self.config.global, own_proxy)),
        ensures
            *context.key == *key,
            *context.globals == self.config.global,
            call_ensures(merge_proxy, (&self.config.global, own_proxy), context.proxy),
            context.acknowledgements == sink_acknowledgements,
            *context.schema == self.config.schema,
            context.schema_definitions@ == extended(
                Seq::empty(),
                texted(known_schemas(outputs@)),
            ),
            *context.extra_context == self.extra_context,
            context.pump_name@ == pump_name(component_name@, key@),
            context.internal == is_internal_source(component_name@),
    {
        SourceContext {
            key,
            globals: &self.config.global,
            proxy: merge_proxy(&self.config.global, own_proxy),
            acknowledgements: sink_acknowledgements,
            schema: &self.config.schema,
            schema_definitions: source_schemas(outputs),
            extra_context: &self.extra_context,
            pump_name: pump_task_name(component_name.as_str(), key.as_str()),
            internal: internal_source(component_name),
        }
    }

    /// What a transform is built with: the schemas of its outputs, and one schema that the schemas
    /// of all its inputs come to.
    pub fn transform_context<'b, F, S, M: Fn(F, F) -> F, A: FnOnce() -> F>(
        &'b self,
        key: &'b ComponentKey,
        inputs: Vec<F>,
        outputs: Vec<(Option<String>, S)>,
        merge: M,
        any: A,
    ) -> (context: TransformContext<'b, W, F, S>)
        requires
            forall|a: F, b: F| call_requires(merge, (a, b)),
            call_requires(any, ()),
        ensures
            *context.key == *key,
            *context.globals == self.config.global,
            *context.schema == self.config.schema,
            context.schema_definitions@ == extended(Seq::empty(), texted(outputs@)),
            is_merge(inputs@, merge, any, context.merged_schema_definition),
            *context.extra_context == self.extra_context,
    {
        TransformContext {
            key,
            globals: &self.config.global,
            schema: &self.config.schema,
            schema_definitions: KeyedMap::from_entries(outputs),
            merged_schema_definition: merged_definition(inputs, merge, any),
            extra_context: &self.extra_context,
        }
    }

    /// What a sink is built with. The proxy is that of the sink, merged with the global one and
    /// with what the environment says.
    pub fn sink_context<'b, P: FnOnce(&W::Global, &W::Proxy) -> W::Proxy>(
        &'b self,
        key: &'b ComponentKey,
        own_proxy: &W::Proxy,
        merge_proxy: P,
        healthcheck: W::Healthcheck,
        app_name: String,
        app_name_slug: String,
    ) -> (context: SinkContext<'b, W>)
        requires
            call_requires(merge_proxy, (&self.config.global, own_proxy)),
        ensures
            *context.key == *key,
            *context.globals == self.config.global,
            call_ensures(merge_proxy, (&self.config.global, own_proxy), context.proxy),
            *context.schema == self.config.schema,
            context.healthcheck == healthcheck,
            context.app_name == app_name,
            context.app_name_slug == app_name_slug,
            *context.extra_context == self.extra_context,
    {
        SinkContext {
            key,
            globals: &self.config.global,
            proxy: merge_proxy(&self.config.global, own_proxy),
            schema: &self.config.schema,
            healthcheck,
            app_name,
            app_name_slug,
            extra_context: &self.extra_context,
        }
    }

    /// Hands out handles on the buffers that are kept for the sinks that have to be built: one for
    /// each sink, where there is one, for its task to take from. A sink without one needs a buffer
    /// to be built.
    pub fn sink_receivers(&self) -> (receivers: Vec<Option<W::Receiver>>)
        ensures
            are_receivers(
                receivers@,
                kept_buffers(self.buffers@, sink_plan(self.config@, *self.diff)),
            ),
    {
        let sinks = new_sinks(self.config, self.diff);
        let ghost plan = sink_plan(self.config@, *self.diff);
        let ghost kept = kept_buffers(self.buffers@, plan);
        // The names of the buffers are distinct.
        let _ = self.buffers.len();
        proof {
            lemma_sink_plan(sinks@, self.config@, *self.diff);
        }
        let mut seen: ComponentMap<()> = ComponentMap::new();
        let mut receivers: Vec<Option<W::Receiver>> = Vec::new();
        let mut i: usize = 0;
        while i < sinks.len()
            invariant
                i <= sinks@.len(),
                plan.len() == sinks@.len(),
                kept == kept_buffers(self.buffers@, plan),
                distinct_keys(self.buffers@),
                forall|j: int|
                    0 <= j < plan.len() ==> (#[trigger] plan[j]).0 == sinks@[j].0@,
                forall|name: Seq<char>| #[trigger]
                    has_key(seen@, name) == (exists|j: int|
                        0 <= j < i && (#[trigger] plan[j]).0 == name),
                receivers@.len() == i,
                forall|j: int|
                    0 <= j < i ==> match (#[trigger] receivers@[j], kept[j]) {
                        (Some(receiver), Some(buffer)) => cloned(buffer.1, receiver),
                        (None, None) => true,
                        _ => false,
                    },
            decreases sinks@.len() - i,
        {
            let name = &sinks[i].0;
            proof {
                law_buffers_are_handed_out_once(self.buffers@, plan, i as int);
                assert(plan[i as int].0 == name@);
                assert(named_before(plan, i as int) == has_key(seen@, name@));
            }
            if seen.contains_key(name.as_str()) {
                receivers.push(None);
            } else {
                match self.buffers.get(name) {
                    Some(buffer) => {
                        receivers.push(Some(buffer.1.clone()));
                    },
                    None => {
                        receivers.push(None);
                    },
                }
            }
            let ghost before = seen@;
            seen.insert(name.clone(), ());
            proof {
                assert forall|other: Seq<char>| #[trigger] has_key(seen@, other) == (exists|j: int|
                    0 <= j < i + 1 && (#[trigger] plan[j]).0 == other) by {
                    lemma_upsert_has_key(before, name@, (), other);
                    if has_key(before, other) {
                        let j = choose|j: int| 0 <= j < i && (#[trigger] plan[j]).0 == other;
                        assert(plan[j].0 == other);
                    }
                }
            }
            i += 1;
        }
        proof {
            if plan.len() == 0 {
                assert(kept.len() == 0);
            } else {
                law_buffers_are_handed_out_once(self.buffers@, plan, 0);
            }
        }
        receivers
    }
}

/// What a source is told of the schemas of its outputs: under each port stands the schema of the
/// last output behind it that has one, and nothing where none has. It is told, too, whether it
/// reports on the process itself, and what its pump is called.
pub proof fn law_source_context<'a, 'b, W: Wiring, F, P: FnOnce(&W::Global, &W::Proxy) -> W::Proxy>(
    builder: &'b TopologyPiecesBuilder<'a, W>,
    key: &'b ComponentKey,
    component_name: &String,
    own_proxy: &W::Proxy,
    merge_proxy: P,
    sink_acknowledgements: bool,
    outputs: Vec<(Option<String>, Option<F>)>,
    context: SourceContext<'b, W, F>,
    port: Option<Seq<char>>,
)
    requires
        call_ensures(
            TopologyPiecesBuilder::<'a, W>::source_context::<F, P>,
            (
                builder,
                key,
                component_name,
                own_proxy,
                merge_proxy,
                sink_acknowledgements,
                outputs,
            ),
            context,
        ),
    ensures
        *context.key == *key,
        *context.globals == builder.config.global,
        *context.schema == builder.config.schema,
        *context.extra_context == builder.extra_context,
        call_ensures(merge_proxy, (&builder.config.global, own_proxy), context.proxy),
        context.acknowledgements == sink_acknowledgements,
        context.internal <==> component_name@ == "internal_logs"@ || component_name@
            == "internal_metrics"@,
        context.pump_name@ == ">> "@ + component_name@ + " ("@ + key@ + ", pump) >>"@,
        forall|i: int|
            #[trigger] has_schema(outputs@, i, port) && (forall|j: int|
                i < j < outputs@.len() ==> !#[trigger] has_schema(outputs@, j, port)) ==> lookup(
                context.schema_definitions@,
                port,
            ) == outputs@[i].1,
        (forall|i: int| !#[trigger] has_schema(outputs@, i, port)) ==> lookup(
            context.schema_definitions@,
            port,
        ) is None,
{
    lemma_known_schemas(outputs@, port);
}

/// What a transform is told of the schemas of its outputs: under each port stands the schema of the
/// last output behind it.
pub proof fn law_transform_context<
    'a,
    'b,
    W: Wiring,
    F,
    S,
    M: Fn(F, F) -> F,
    A: FnOnce() -> F,
>(
    builder: &'b TopologyPiecesBuilder<'a, W>,
    key: &'b ComponentKey,
    inputs: Vec<F>,
    outputs: Vec<(Option<String>, S)>,
    merge: M,
    any: A,
    context: TransformContext<'b, W, F, S>,
    k: int,
)
    requires
        call_ensures(
            TopologyPiecesBuilder::<'a, W>::transform_context::<F, S, M, A>,
            (builder, key, inputs, outputs, merge, any),
            context,
        ),
        0 <= k < outputs@.len(),
        forall|j: int|
            k < j < outputs@.len() ==> opt_text((#[trigger] outputs@[j]).0) != opt_text(
                outputs@[k].0,
            ),
    ensures
        *context.key == *key,
        *context.globals == builder.config.global,
        *context.schema == builder.config.schema,
        *context.extra_context == builder.extra_context,
        inputs@.len() == 0 ==> call_ensures(any, (), context.merged_schema_definition),
        inputs@.len() == 1 ==> context.merged_schema_definition == inputs@[0],
        lookup(context.schema_definitions@, opt_text(outputs@[k].0)) == Some(outputs@[k].1),
{
    let later = texted(outputs@);
    assert(later[k] == (opt_text(outputs@[k].0), outputs@[k].1));
    assert forall|j: int| k < j < later.len() implies (#[trigger] later[j]).0 != later[k].0 by {
        assert(later[j].0 == opt_text(outputs@[j].0));
    }
    lemma_extended_last(Seq::empty(), later, k);
    if inputs@.len() == 1 {
        assert(inputs@ =~= seq![inputs@[0]]);
        law_one_more_definition(
            inputs@,
            inputs@[0],
            merge,
            any,
            context.merged_schema_definition,
        );
    }
}

/// What a sink is told: its own name and proxy, how it is checked and what the application is
/// called are handed on as they are, beside what holds for all components.
pub proof fn law_sink_context<'a, 'b, W: Wiring, P: FnOnce(&W::Global, &W::Proxy) -> W::Proxy>(
    builder: &'b TopologyPiecesBuilder<'a, W>,
    key: &'b ComponentKey,
    own_proxy: &W::Proxy,
    merge_proxy: P,
    healthcheck: W::Healthcheck,
    app_name: String,
    app_name_slug: String,
    context: SinkContext<'b, W>,
)
    requires
        call_ensures(
            TopologyPiecesBuilder::<'a, W>::sink_context::<P>,
            (builder, key, own_proxy, merge_proxy, healthcheck, app_name, app_name_slug),
            context,
        ),
    ensures
        context.key@ == key@,
        *context.globals == builder.config.global,
        *context.schema == builder.config.schema,
        *context.extra_context == builder.extra_context,
        call_ensures(merge_proxy, (&builder.config.global, own_proxy), context.proxy),
        context.healthcheck == healthcheck,
        context.app_name@ == app_name@,
        context.app_name_slug@ == app_name_slug@,
{
}

/// A sink gets a handle on a buffer exactly where one is kept under its name and no sink before it
/// has that name; and the handle is on that buffer.
pub proof fn law_sink_receivers<'a, W: Wiring>(
    builder: TopologyPiecesBuilder<'a, W>,
    receivers: Vec<Option<W::Receiver>>,
    i: int,
)
    requires
        distinct_keys(builder.buffers@),
        call_ensures(TopologyPiecesBuilder::<'a, W>::sink_receivers, (&builder,), receivers),
        0 <= i < sink_plan(builder.config@, *builder.diff).len(),
    ensures
        ({
            let sinks = sink_plan(builder.config@, *builder.diff);
            &&& receivers@.len() == sinks.len()
            &&& receivers@[i] is Some <==> has_key(builder.buffers@, sinks[i].0) && forall|j: int|
                0 <= j < i ==> (#[trigger] sinks[j]).0 != sinks[i].0
            &&& receivers@[i] matches Some(receiver) ==> (lookup(
                builder.buffers@,
                sinks[i].0,
            ) matches Some(buffer) && cloned(buffer.1, receiver))
        }),
{
    let sinks = sink_plan(builder.config@, *builder.diff);
    law_buffers_are_handed_out_once(builder.buffers@, sinks, i);
    let kept = kept_buffers(builder.buffers@, sinks);
    assert(kept[i] is Some == receivers@[i] is Some);
    if named_before(sinks, i) {
        let j = choose|j: int| 0 <= j < i && #[trigger] sinks[j].0 == sinks[i].0;
        assert(sinks[j].0 == sinks[i].0);
    }
}

} // verus!

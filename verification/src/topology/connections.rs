//! What a topology that was built connects: which pieces it has, and where each of them comes from.
//!
//! Nothing here is run. Each statement speaks of the pieces that are handed out, and of what was
//! written down and reported, and of nothing in between.

use vstd::prelude::*;

use crate::config::compiler::{table_sinks, table_sources};
use crate::config::{
    lemma_viewed_lookup, viewed, views, ConfigView, Domain, OutputIdView, SinkView, SourceOuter,
    TableView,
};
use crate::ordered::{
    distinct_keys, has_key, lemma_extended_distinct, lemma_extended_last,
    lemma_extended_other, lemma_slot_mapped, lemma_upsert_distinct, lemma_upsert_lookup, lookup,
    slot_of,
};
use crate::text::{opt_text, texts};
use crate::topology::builder::{
    buffers_left, component_error, fed, has_sender, kept_buffers, law_buffers_are_handed_out_once,
    lemma_buffers_after, lemma_kept_at, named_before, no_pieces, output_entries, sink_plan,
    sink_sender, source_plan, transform_outputs, transform_plan, with_all_transforms, with_sinks,
    with_sources, with_transforms, BuilderView, InputEntry, SinkReport, SourceReport,
    TableReport, TransformControls, TransformReport, TransformReports, Wiring,
};
use crate::topology::diff::{
    law_only_new, new_sink_entries, new_source_entries, only_new, Change, ConfigDiff, Difference,
};
use crate::topology::outputs::{finalized, law_finalize_outputs, PortMap};
use crate::topology::pieces::{
    all_parts, all_transform_errors, is_made_of, law_errors_in_order, law_pieces,
    parts_before_sinks, sink_built, sink_errors, source_built, source_errors, table_errors,
    transform_built, transform_errors, work_fits, BuildWork, TopologyPieces, TopologyPiecesBuilder,
};
use crate::topology::tables::{law_table_errors, load_views, with_tables, TableLoad};

verus! {

// ---------------------------------------------------------------------------------------------
// Outputs.
// ---------------------------------------------------------------------------------------------

/// The control of an output, where a component has the output.
pub open spec fn control_of<C>(
    outputs: Seq<(Seq<char>, PortMap<C>)>,
    component: Seq<char>,
    port: Option<Seq<char>>,
) -> Option<C> {
    match lookup(outputs, component) {
        Some(ports) => lookup(ports@, port),
        None => None,
    }
}

/// The source at `i` was built, and the output at `k` of its report is the one of the name.
pub open spec fn source_gives<W: Wiring>(
    keys: Seq<Seq<char>>,
    reports: Seq<SourceReport<W>>,
    i: int,
    k: int,
    component: Seq<char>,
    port: Option<Seq<char>>,
) -> bool {
    &&& 0 <= i < reports.len()
    &&& keys[i] == component
    &&& reports[i] matches SourceReport::Built { controls, .. } && 0 <= k < controls@.len()
        && opt_text(controls@[k].0) == port
}

/// The transform at `i` was built, and the output at `k` of its report is the one of the name.
pub open spec fn transform_gives<W: Wiring>(
    transforms: Seq<(Seq<char>, Seq<OutputIdView>)>,
    reports: TransformReports<W>,
    i: int,
    k: int,
    component: Seq<char>,
    port: Option<Seq<char>>,
) -> bool {
    &&& reports matches TransformReports::Built(list)
    &&& 0 <= i < list@.len()
    &&& transforms[i].0 == component
    &&& list@[i] matches TransformReport::Built { controls, .. } && (match controls {
        TransformControls::Synchronous(ports) => 0 <= k < ports@.len() && opt_text(ports@[k].0)
            == port,
        TransformControls::Task(_) => k == 0 && port is None,
    })
}

/// The control at `k` of the report of a transform.
pub open spec fn given_control<W: Wiring>(report: TransformReport<W>, k: int) -> W::Control {
    match report->controls {
        TransformControls::Synchronous(ports) => ports@[k].1,
        TransformControls::Task(control) => control,
    }
}

proof fn lemma_source_outputs<W: Wiring>(
    pieces: BuilderView<W>,
    keys: Seq<Seq<char>>,
    reports: Seq<SourceReport<W>>,
    id: OutputIdView,
)
    requires
        distinct_keys(pieces.outputs),
        reports.len() <= keys.len(),
    ensures
        distinct_keys(with_sources(pieces, keys, reports).outputs),
        forall|i: int, k: int|
            #![trigger source_gives(keys, reports, i, k, id.component, id.port)]
            source_gives(keys, reports, i, k, id.component, id.port) && (forall|i2: int, k2: int|
                #[trigger]
                source_gives(keys, reports, i2, k2, id.component, id.port) ==> i2 < i || (i2 == i
                    && k2 <= k)) ==> lookup(with_sources(pieces, keys, reports).outputs, id)
                == Some(reports[i]->Built_controls@[k].1),
        (forall|i: int, k: int|
            !#[trigger] source_gives(keys, reports, i, k, id.component, id.port))
            ==> lookup(with_sources(pieces, keys, reports).outputs, id) == lookup(
            pieces.outputs,
            id,
        ),
    decreases reports.len(),
{
    if reports.len() > 0 {
        let front = reports.drop_last();
        let last = reports.len() - 1;
        let before = with_sources(pieces, keys, front);
        let after = with_sources(pieces, keys, reports);
        lemma_source_outputs(pieces, keys, front, id);
        assert forall|i: int, k: int|
            i < last implies #[trigger] source_gives(keys, reports, i, k, id.component, id.port)
            == source_gives(keys, front, i, k, id.component, id.port) by {
            if 0 <= i < last {
                assert(front[i] == reports[i]);
            }
        }
        assert forall|i: int, k: int| #[trigger]
            source_gives(keys, front, i, k, id.component, id.port) implies source_gives(
            keys,
            reports,
            i,
            k,
            id.component,
            id.port,
        ) by {
            assert(front[i] == reports[i]);
        }
        if let SourceReport::Built { controls, pump, server } = reports.last() {
            let entries = output_entries(keys[last], controls@);
            lemma_extended_distinct(before.outputs, entries);
            assert(entries.len() == controls@.len());
            assert forall|k: int| 0 <= k < entries.len() implies (#[trigger] entries[k]) == (
                OutputIdView { component: keys[last], port: opt_text(controls@[k].0) },
                controls@[k].1,
            ) by {}
            if forall|k: int| 0 <= k < entries.len() ==> (#[trigger] entries[k]).0 != id {
                lemma_extended_other(before.outputs, entries, id);
                assert forall|k: int|
                    !source_gives(keys, reports, last, k, id.component, id.port) by {
                    if source_gives(keys, reports, last, k, id.component, id.port) {
                        assert(entries[k].0 == id);
                    }
                }
            }
        }
        assert forall|i: int, k: int|
            #![trigger source_gives(keys, reports, i, k, id.component, id.port)]
            source_gives(keys, reports, i, k, id.component, id.port) && (forall|i2: int, k2: int|
                #[trigger]
                source_gives(keys, reports, i2, k2, id.component, id.port) ==> i2 < i || (i2 == i
                    && k2 <= k)) implies lookup(after.outputs, id) == Some(
            reports[i]->Built_controls@[k].1,
        ) by {
            if i == last {
                let controls = reports[i]->Built_controls;
                let entries = output_entries(keys[last], controls@);
                assert(entries[k].0 == id);
                assert forall|j: int| k < j < entries.len() implies (#[trigger] entries[j]).0
                    != entries[k].0 by {
                    if entries[j].0 == entries[k].0 {
                        assert(source_gives(keys, reports, last, j, id.component, id.port));
                    }
                }
                lemma_extended_last(before.outputs, entries, k);
            } else {
                assert(source_gives(keys, front, i, k, id.component, id.port));
                assert(lookup(before.outputs, id) == Some(front[i]->Built_controls@[k].1));
                if let SourceReport::Built { controls, pump, server } = reports.last() {
                    let entries = output_entries(keys[last], controls@);
                    assert forall|j: int| 0 <= j < entries.len() implies (#[trigger] entries[j]).0
                        != id by {
                        if entries[j].0 == id {
                            assert(source_gives(keys, reports, last, j, id.component, id.port));
                        }
                    }
                    lemma_extended_other(before.outputs, entries, id);
                }
            }
        }
        if forall|i: int, k: int| !#[trigger] source_gives(
            keys,
            reports,
            i,
            k,
            id.component,
            id.port,
        ) {
            if let SourceReport::Built { controls, pump, server } = reports.last() {
                let entries = output_entries(keys[last], controls@);
                assert forall|j: int| 0 <= j < entries.len() implies (#[trigger] entries[j]).0
                    != id by {
                    if entries[j].0 == id {
                        assert(source_gives(keys, reports, last, j, id.component, id.port));
                    }
                }
                lemma_extended_other(before.outputs, entries, id);
            }
        }
    }
}

/// The transform at `i` of a list was built, and the output at `k` of its report is the one of the
/// name.
spec fn listed_gives<W: Wiring>(
    transforms: Seq<(Seq<char>, Seq<OutputIdView>)>,
    reports: Seq<TransformReport<W>>,
    i: int,
    k: int,
    component: Seq<char>,
    port: Option<Seq<char>>,
) -> bool {
    &&& 0 <= i < reports.len()
    &&& transforms[i].0 == component
    &&& reports[i] matches TransformReport::Built { controls, .. } && (match controls {
        TransformControls::Synchronous(ports) => 0 <= k < ports@.len() && opt_text(ports@[k].0)
            == port,
        TransformControls::Task(_) => k == 0 && port is None,
    })
}

proof fn lemma_transform_entries<W: Wiring>(
    transforms: Seq<(Seq<char>, Seq<OutputIdView>)>,
    reports: Seq<TransformReport<W>>,
    i: int,
    id: OutputIdView,
)
    requires
        0 <= i < reports.len(),
        reports[i] is Built,
    ensures
        ({
            let entries = transform_outputs(transforms[i].0, reports[i]->controls);
            forall|k: int|
                #![trigger entries[k]]
                #![trigger listed_gives(transforms, reports, i, k, id.component, id.port)]
                (0 <= k < entries.len() && entries[k].0 == id) == listed_gives(
                    transforms,
                    reports,
                    i,
                    k,
                    id.component,
                    id.port,
                ) && (0 <= k < entries.len() ==> entries[k].1 == given_control(reports[i], k))
        }),
{
    let controls = reports[i]->controls;
    let entries = transform_outputs(transforms[i].0, controls);
    assert forall|k: int|
        #![trigger entries[k]]
        #![trigger listed_gives(transforms, reports, i, k, id.component, id.port)]
        (0 <= k < entries.len() && entries[k].0 == id) == listed_gives(
            transforms,
            reports,
            i,
            k,
            id.component,
            id.port,
        ) && (0 <= k < entries.len() ==> entries[k].1 == given_control(reports[i], k)) by {
        match controls {
            TransformControls::Synchronous(ports) => {
                assert(entries.len() == ports@.len());
            },
            TransformControls::Task(control) => {
                assert(entries.len() == 1);
            },
        }
    }
}

proof fn lemma_transform_outputs<W: Wiring>(
    pieces: BuilderView<W>,
    keys: Seq<(Seq<char>, Seq<OutputIdView>)>,
    reports: Seq<TransformReport<W>>,
    id: OutputIdView,
)
    requires
        distinct_keys(pieces.outputs),
        reports.len() <= keys.len(),
    ensures
        distinct_keys(with_transforms(pieces, keys, reports).outputs),
        forall|i: int, k: int|
            #![trigger listed_gives(keys, reports, i, k, id.component, id.port)]
            listed_gives(keys, reports, i, k, id.component, id.port) && (forall|i2: int, k2: int|
                #[trigger]
                listed_gives(keys, reports, i2, k2, id.component, id.port) ==> i2 < i || (i2 == i
                    && k2 <= k)) ==> lookup(with_transforms(pieces, keys, reports).outputs, id)
                == Some(given_control(reports[i], k)),
        (forall|i: int, k: int|
            !#[trigger] listed_gives(keys, reports, i, k, id.component, id.port))
            ==> lookup(with_transforms(pieces, keys, reports).outputs, id) == lookup(
            pieces.outputs,
            id,
        ),
    decreases reports.len(),
{
    if reports.len() > 0 {
        let front = reports.drop_last();
        let last = reports.len() - 1;
        let before = with_transforms(pieces, keys, front);
        let after = with_transforms(pieces, keys, reports);
        lemma_transform_outputs(pieces, keys, front, id);
        assert forall|i: int, k: int|
            i < last implies #[trigger] listed_gives(keys, reports, i, k, id.component, id.port)
            == listed_gives(keys, front, i, k, id.component, id.port) by {
            if 0 <= i < last {
                assert(front[i] == reports[i]);
            }
        }
        assert forall|i: int, k: int| #[trigger]
            listed_gives(keys, front, i, k, id.component, id.port) implies listed_gives(
            keys,
            reports,
            i,
            k,
            id.component,
            id.port,
        ) by {
            assert(front[i] == reports[i]);
        }
        if let TransformReport::Built { sender, controls, task } = reports.last() {
            let entries = transform_outputs(keys[last].0, controls);
            lemma_extended_distinct(before.outputs, entries);
            lemma_transform_entries(keys, reports, last, id);
            if forall|k: int| 0 <= k < entries.len() ==> (#[trigger] entries[k]).0 != id {
                lemma_extended_other(before.outputs, entries, id);
                assert forall|k: int| !listed_gives(
                    keys,
                    reports,
                    last,
                    k,
                    id.component,
                    id.port,
                ) by {
                    if listed_gives(keys, reports, last, k, id.component, id.port) {
                        assert(entries[k].0 == id);
                    }
                }
            }
        }
        assert forall|i: int, k: int|
            #![trigger listed_gives(keys, reports, i, k, id.component, id.port)]
            listed_gives(keys, reports, i, k, id.component, id.port) && (forall|i2: int, k2: int|
                #[trigger]
                listed_gives(keys, reports, i2, k2, id.component, id.port) ==> i2 < i || (i2 == i
                    && k2 <= k)) implies lookup(after.outputs, id) == Some(
            given_control(reports[i], k),
        ) by {
            if i == last {
                let controls = reports[i]->controls;
                let entries = transform_outputs(keys[last].0, controls);
                assert(entries[k].0 == id);
                assert forall|j: int| k < j < entries.len() implies (#[trigger] entries[j]).0
                    != entries[k].0 by {
                    if entries[j].0 == entries[k].0 {
                        assert(listed_gives(keys, reports, last, j, id.component, id.port));
                    }
                }
                lemma_extended_last(before.outputs, entries, k);
            } else {
                assert(listed_gives(keys, front, i, k, id.component, id.port));
                assert(lookup(before.outputs, id) == Some(given_control(front[i], k)));
                if let TransformReport::Built { sender, controls, task } = reports.last() {
                    let entries = transform_outputs(keys[last].0, controls);
                    assert forall|j: int| 0 <= j < entries.len() implies (#[trigger] entries[j]).0
                        != id by {
                        if entries[j].0 == id {
                            assert(listed_gives(keys, reports, last, j, id.component, id.port));
                        }
                    }
                    lemma_extended_other(before.outputs, entries, id);
                }
            }
        }
        if forall|i: int, k: int| !#[trigger] listed_gives(
            keys,
            reports,
            i,
            k,
            id.component,
            id.port,
        ) {
            if let TransformReport::Built { sender, controls, task } = reports.last() {
                let entries = transform_outputs(keys[last].0, controls);
                assert forall|j: int| 0 <= j < entries.len() implies (#[trigger] entries[j]).0
                    != id by {
                    if entries[j].0 == id {
                        assert(listed_gives(keys, reports, last, j, id.component, id.port));
                    }
                }
                lemma_extended_other(before.outputs, entries, id);
            }
        }
    }
}

/// The outputs of the pieces, as they were put together.
proof fn lemma_outputs_of<W: Wiring, F: FnOnce() -> (W::Emitter, W::Registry)>(
    builder: TopologyPiecesBuilder<'_, W>,
    fresh: F,
    work: BuildWork<W>,
    pieces: TopologyPieces<W>,
    id: OutputIdView,
)
    requires
        call_ensures(TopologyPiecesBuilder::<W>::build::<F>, (builder, fresh, work), Ok(pieces)),
        work_fits(work, builder.buffers@, builder.config@, *builder.diff),
    ensures
        ({
            let tables = with_tables(
                no_pieces(builder.buffers@),
                load_views(work.table_plan@),
                work.tables@,
            );
            let sources = with_sources(
                tables,
                source_plan(builder.config@, *builder.diff),
                work.sources@,
            );
            let transforms = with_all_transforms(
                sources,
                transform_plan(builder.config@, *builder.diff),
                work.transforms,
            );
            &&& tables.outputs.len() == 0
            &&& distinct_keys(sources.outputs)
            &&& control_of(pieces.outputs@, id.component, id.port) == lookup(transforms.outputs, id)
        }),
{
    let config = builder.config@;
    let diff = *builder.diff;
    let none = no_pieces::<W>(builder.buffers@);
    let tables = with_tables(none, load_views(work.table_plan@), work.tables@);
    let sources = with_sources(tables, source_plan(config, diff), work.sources@);
    let transforms = with_all_transforms(sources, transform_plan(config, diff), work.transforms);
    let parts = all_parts(builder.buffers@, config, diff, work);
    law_table_errors(none, load_views(work.table_plan@), work.tables@);
    lemma_source_outputs(tables, source_plan(config, diff), work.sources@, id);
    match work.transforms {
        TransformReports::SchemaFailed => {},
        TransformReports::Built(list) => {
            lemma_transform_outputs(sources, transform_plan(config, diff), list@, id);
        },
    }
    lemma_sinks_keep_outputs(transforms, sink_plan(config, diff), work.sinks@);
    law_finalize_outputs(parts.outputs, id);
    assert(is_made_of(pieces, parts));
    let grouped = pieces.outputs@;
    assert(viewed(grouped) == finalized(parts.outputs));
    lemma_viewed_lookup(grouped, id.component);
}

proof fn lemma_sinks_keep_outputs<W: Wiring>(
    pieces: BuilderView<W>,
    sinks: Seq<(Seq<char>, Seq<OutputIdView>)>,
    reports: Seq<SinkReport<W>>,
)
    ensures
        with_sinks(pieces, sinks, reports).outputs == pieces.outputs,
    decreases reports.len(),
{
    if reports.len() > 0 {
        lemma_sinks_keep_outputs(pieces, sinks, reports.drop_last());
    }
}

/// Whatever reads from a source that was built can be attached to it: each output that the source
/// was reported with is among the outputs of the pieces, under the name of the source and under its
/// port, with the control that was reported. Where an output was reported more than once, the last
/// control counts.
pub proof fn law_source_outputs<W: Wiring, F: FnOnce() -> (W::Emitter, W::Registry)>(
    builder: TopologyPiecesBuilder<'_, W>,
    fresh: F,
    work: BuildWork<W>,
    pieces: TopologyPieces<W>,
    i: int,
    k: int,
    component: Seq<char>,
    port: Option<Seq<char>>,
)
    requires
        call_ensures(TopologyPiecesBuilder::<W>::build::<F>, (builder, fresh, work), Ok(pieces)),
        work_fits(work, builder.buffers@, builder.config@, *builder.diff),
        ({
            let keys = source_plan(builder.config@, *builder.diff);
            let transforms = transform_plan(builder.config@, *builder.diff);
            &&& source_gives(keys, work.sources@, i, k, component, port)
            &&& forall|i2: int, k2: int| #[trigger]
                source_gives(keys, work.sources@, i2, k2, component, port) ==> i2 < i || (i2 == i
                    && k2 <= k)
            &&& forall|i2: int, k2: int| !#[trigger] transform_gives(
                transforms,
                work.transforms,
                i2,
                k2,
                component,
                port,
            )
        }),
    ensures
        work.sources@[i] matches SourceReport::Built { controls, .. } && control_of(
            pieces.outputs@,
            component,
            port,
        ) == Some(controls@[k].1),
{
    let id = OutputIdView { component, port };
    let config = builder.config@;
    let diff = *builder.diff;
    let keys = source_plan(config, diff);
    let transforms = transform_plan(config, diff);
    let tables = with_tables(
        no_pieces::<W>(builder.buffers@),
        load_views(work.table_plan@),
        work.tables@,
    );
    lemma_outputs_of(builder, fresh, work, pieces, id);
    lemma_source_outputs(tables, keys, work.sources@, id);
    let sources = with_sources(tables, keys, work.sources@);
    assert(source_gives(keys, work.sources@, i, k, id.component, id.port));
    match work.transforms {
        TransformReports::SchemaFailed => {},
        TransformReports::Built(list) => {
            lemma_transform_outputs(sources, transforms, list@, id);
            assert forall|i2: int, k2: int| !#[trigger] listed_gives(
                transforms,
                list@,
                i2,
                k2,
                component,
                port,
            ) by {
                assert(!transform_gives(transforms, work.transforms, i2, k2, component, port));
            }
        },
    }
}

/// Whatever reads from a transform that was built can be attached to it: each output that the
/// transform was reported with is among the outputs of the pieces, under the name of the transform
/// and under its port (a transform that works on the stream as a whole has the default output
/// only), with the control that was reported.
pub proof fn law_transform_outputs<W: Wiring, F: FnOnce() -> (W::Emitter, W::Registry)>(
    builder: TopologyPiecesBuilder<'_, W>,
    fresh: F,
    work: BuildWork<W>,
    pieces: TopologyPieces<W>,
    i: int,
    k: int,
    component: Seq<char>,
    port: Option<Seq<char>>,
)
    requires
        call_ensures(TopologyPiecesBuilder::<W>::build::<F>, (builder, fresh, work), Ok(pieces)),
        work_fits(work, builder.buffers@, builder.config@, *builder.diff),
        ({
            let transforms = transform_plan(builder.config@, *builder.diff);
            &&& transform_gives(transforms, work.transforms, i, k, component, port)
            &&& forall|i2: int, k2: int| #[trigger]
                transform_gives(transforms, work.transforms, i2, k2, component, port) ==> i2 < i
                    || (i2 == i && k2 <= k)
        }),
    ensures
        work.transforms matches TransformReports::Built(list) && control_of(
            pieces.outputs@,
            component,
            port,
        ) == Some(given_control(list@[i], k)),
{
    let id = OutputIdView { component, port };
    let config = builder.config@;
    let diff = *builder.diff;
    let transforms = transform_plan(config, diff);
    let tables = with_tables(
        no_pieces::<W>(builder.buffers@),
        load_views(work.table_plan@),
        work.tables@,
    );
    lemma_outputs_of(builder, fresh, work, pieces, id);
    let sources = with_sources(tables, source_plan(config, diff), work.sources@);
    match work.transforms {
        TransformReports::SchemaFailed => {},
        TransformReports::Built(list) => {
            lemma_transform_outputs(sources, transforms, list@, id);
            assert forall|i2: int, k2: int| #[trigger]
                listed_gives(transforms, list@, i2, k2, component, port) implies i2 < i || (i2 == i
                && k2 <= k) by {
                assert(transform_gives(transforms, work.transforms, i2, k2, component, port));
            }
            assert(listed_gives(transforms, list@, i, k, id.component, id.port));
        },
    }
}

/// An output is among the outputs of the pieces only where a source or a transform of its name was
/// built and reported its port.
pub proof fn law_no_other_outputs<W: Wiring, F: FnOnce() -> (W::Emitter, W::Registry)>(
    builder: TopologyPiecesBuilder<'_, W>,
    fresh: F,
    work: BuildWork<W>,
    pieces: TopologyPieces<W>,
    component: Seq<char>,
    port: Option<Seq<char>>,
)
    requires
        call_ensures(TopologyPiecesBuilder::<W>::build::<F>, (builder, fresh, work), Ok(pieces)),
        work_fits(work, builder.buffers@, builder.config@, *builder.diff),
    ensures
        control_of(pieces.outputs@, component, port) is Some <==> ((exists|i: int, k: int|
            #[trigger]
            source_gives(
                source_plan(builder.config@, *builder.diff),
                work.sources@,
                i,
                k,
                component,
                port,
            )) || (exists|i: int, k: int| #[trigger]
            transform_gives(
                transform_plan(builder.config@, *builder.diff),
                work.transforms,
                i,
                k,
                component,
                port,
            ))),
{
    let id = OutputIdView { component, port };
    let config = builder.config@;
    let diff = *builder.diff;
    let keys = source_plan(config, diff);
    let transforms = transform_plan(config, diff);
    let tables = with_tables(
        no_pieces::<W>(builder.buffers@),
        load_views(work.table_plan@),
        work.tables@,
    );
    lemma_outputs_of(builder, fresh, work, pieces, id);
    lemma_source_outputs(tables, keys, work.sources@, id);
    let sources = with_sources(tables, keys, work.sources@);
    let of_source = exists|i: int, k: int| #[trigger]
        source_gives(keys, work.sources@, i, k, component, port);
    if of_source {
        let (i, k) = choose|i: int, k: int| #[trigger]
            source_gives(keys, work.sources@, i, k, component, port);
        lemma_last_source(keys, work.sources@, component, port, i, k);
    }
    match work.transforms {
        TransformReports::SchemaFailed => {
            assert forall|i: int, k: int| !#[trigger] transform_gives(
                transforms,
                work.transforms,
                i,
                k,
                component,
                port,
            ) by {}
        },
        TransformReports::Built(list) => {
            lemma_transform_outputs(sources, transforms, list@, id);
            assert forall|i: int, k: int| #[trigger]
                transform_gives(transforms, work.transforms, i, k, component, port)
                == listed_gives(transforms, list@, i, k, component, port) by {}
            assert forall|i: int, k: int| #[trigger]
                listed_gives(transforms, list@, i, k, component, port) == transform_gives(
                transforms,
                work.transforms,
                i,
                k,
                component,
                port,
            ) by {}
            if exists|i: int, k: int| #[trigger]
                listed_gives(transforms, list@, i, k, component, port) {
                let (i, k) = choose|i: int, k: int| #[trigger]
                    listed_gives(transforms, list@, i, k, component, port);
                lemma_last_transform(transforms, list@, component, port, i, k);
            }
        },
    }
}

/// Among the reports of an output there is a last one.
proof fn lemma_last_source<W: Wiring>(
    keys: Seq<Seq<char>>,
    reports: Seq<SourceReport<W>>,
    component: Seq<char>,
    port: Option<Seq<char>>,
    i: int,
    k: int,
)
    requires
        source_gives(keys, reports, i, k, component, port),
    ensures
        exists|i1: int, k1: int|
            #![trigger source_gives(keys, reports, i1, k1, component, port)]
            source_gives(keys, reports, i1, k1, component, port) && (forall|i2: int, k2: int|
                #[trigger]
                source_gives(keys, reports, i2, k2, component, port) ==> i2 < i1 || (i2 == i1 && k2
                    <= k1)),
    decreases reports.len() - i, reports[i]->Built_controls@.len() - k,
{
    if !(forall|i2: int, k2: int| #[trigger]
        source_gives(keys, reports, i2, k2, component, port) ==> i2 < i || (i2 == i && k2 <= k)) {
        let (i2, k2) = choose|i2: int, k2: int| #[trigger]
            source_gives(keys, reports, i2, k2, component, port) && !(i2 < i || (i2 == i && k2
                <= k));
        lemma_last_source(keys, reports, component, port, i2, k2);
    }
}

/// How many outputs a transform was reported with.
spec fn output_count<W: Wiring>(report: TransformReport<W>) -> nat {
    match report->controls {
        TransformControls::Synchronous(ports) => ports@.len(),
        TransformControls::Task(_) => 1,
    }
}

proof fn lemma_last_transform<W: Wiring>(
    transforms: Seq<(Seq<char>, Seq<OutputIdView>)>,
    reports: Seq<TransformReport<W>>,
    component: Seq<char>,
    port: Option<Seq<char>>,
    i: int,
    k: int,
)
    requires
        listed_gives(transforms, reports, i, k, component, port),
    ensures
        exists|i1: int, k1: int|
            #![trigger listed_gives(transforms, reports, i1, k1, component, port)]
            listed_gives(transforms, reports, i1, k1, component, port) && (forall|i2: int, k2: int|
                #[trigger]
                listed_gives(transforms, reports, i2, k2, component, port) ==> i2 < i1 || (i2 == i1
                    && k2 <= k1)),
    decreases reports.len() - i, output_count(reports[i]) - k,
{
    if !(forall|i2: int, k2: int| #[trigger]
        listed_gives(transforms, reports, i2, k2, component, port) ==> i2 < i || (i2 == i && k2
            <= k)) {
        let (i2, k2) = choose|i2: int, k2: int| #[trigger]
            listed_gives(transforms, reports, i2, k2, component, port) && !(i2 < i || (i2 == i && k2
                <= k));
        lemma_last_transform(transforms, reports, component, port, i2, k2);
    }
}

// ---------------------------------------------------------------------------------------------
// Tasks, inputs, healthchecks and triggers.
// ---------------------------------------------------------------------------------------------

/// The source at `i` was built, and none of its name was built after it.
pub open spec fn last_source<W: Wiring>(
    keys: Seq<Seq<char>>,
    reports: Seq<SourceReport<W>>,
    i: int,
) -> bool {
    &&& 0 <= i < reports.len()
    &&& reports[i] is Built
    &&& forall|j: int|
        i < j < reports.len() && keys[j] == keys[i] ==> !(#[trigger] reports[j] is Built)
}

/// The transform at `i` was built, and none of its name was built after it.
pub open spec fn last_transform<W: Wiring>(
    transforms: Seq<(Seq<char>, Seq<OutputIdView>)>,
    reports: Seq<TransformReport<W>>,
    i: int,
) -> bool {
    &&& 0 <= i < reports.len()
    &&& reports[i] is Built
    &&& forall|j: int|
        i < j < reports.len() && transforms[j].0 == transforms[i].0 ==> !(
        #[trigger] reports[j] is Built)
}

/// The sink at `i` was built, and none of its name was built after it.
pub open spec fn last_sink<W: Wiring>(
    sinks: Seq<(Seq<char>, Seq<OutputIdView>)>,
    reports: Seq<SinkReport<W>>,
    i: int,
) -> bool {
    &&& 0 <= i < reports.len()
    &&& reports[i].built is Ok
    &&& forall|j: int|
        i < j < reports.len() && sinks[j].0 == sinks[i].0 ==> !(
        #[trigger] reports[j].built is Ok)
}

proof fn lemma_source_tasks<W: Wiring>(
    pieces: BuilderView<W>,
    keys: Seq<Seq<char>>,
    reports: Seq<SourceReport<W>>,
    key: Seq<char>,
)
    requires
        distinct_keys(pieces.tasks),
        distinct_keys(pieces.source_tasks),
        reports.len() <= keys.len(),
    ensures
        ({
            let after = with_sources(pieces, keys, reports);
            &&& distinct_keys(after.tasks)
            &&& distinct_keys(after.source_tasks)
            &&& after.inputs == pieces.inputs
            &&& after.healthchecks == pieces.healthchecks
            &&& after.detach_triggers == pieces.detach_triggers
            &&& after.buffers == pieces.buffers
            &&& forall|i: int| #[trigger]
                last_source(keys, reports, i) && keys[i] == key ==> lookup(after.tasks, key)
                    == Some(reports[i]->pump) && lookup(after.source_tasks, key) == Some(
                    reports[i]->server,
                )
            &&& !source_built(keys, reports, key) ==> lookup(after.tasks, key) == lookup(
                pieces.tasks,
                key,
            ) && lookup(after.source_tasks, key) == lookup(pieces.source_tasks, key)
        }),
    decreases reports.len(),
{
    if reports.len() > 0 {
        let front = reports.drop_last();
        let last = reports.len() - 1;
        let before = with_sources(pieces, keys, front);
        let after = with_sources(pieces, keys, reports);
        lemma_source_tasks(pieces, keys, front, key);
        if let SourceReport::Built { controls, pump, server } = reports.last() {
            lemma_upsert_distinct(before.tasks, keys[last], pump);
            lemma_upsert_distinct(before.source_tasks, keys[last], server);
            lemma_upsert_lookup(before.tasks, keys[last], pump, key);
            lemma_upsert_lookup(before.source_tasks, keys[last], server, key);
        }
        assert(reports[last] == reports.last());
        assert forall|i: int| #[trigger]
            last_source(keys, reports, i) && keys[i] == key implies lookup(after.tasks, key)
            == Some(reports[i]->pump) && lookup(after.source_tasks, key) == Some(
            reports[i]->server,
        ) by {
            if i < last {
                assert(!(keys[last] == key && reports[last] is Built));
                assert(front[i] == reports[i]);
                assert forall|j: int|
                    i < j < front.len() && keys[j] == keys[i] implies !(
                #[trigger] front[j] is Built) by {
                    assert(!(reports[j] is Built));
                }
                assert(last_source(keys, front, i));
            }
        }
        if !source_built(keys, reports, key) {
            assert(!(keys[last] == key && reports[last] is Built));
            if source_built(keys, front, key) {
                let i = choose|i: int|
                    0 <= i < front.len() && #[trigger] keys[i] == key && front[i] is Built;
                assert(keys[i] == key && reports[i] is Built);
            }
        }
    }
}

/// A transform of the name was built.
spec fn listed_built<W: Wiring>(
    transforms: Seq<(Seq<char>, Seq<OutputIdView>)>,
    reports: Seq<TransformReport<W>>,
    key: Seq<char>,
) -> bool {
    exists|i: int|
        0 <= i < reports.len() && #[trigger] transforms[i].0 == key && reports[i] is Built
}

proof fn lemma_transform_pieces<W: Wiring>(
    pieces: BuilderView<W>,
    transforms: Seq<(Seq<char>, Seq<OutputIdView>)>,
    reports: Seq<TransformReport<W>>,
    key: Seq<char>,
)
    requires
        distinct_keys(pieces.tasks),
        distinct_keys(pieces.inputs),
        reports.len() <= transforms.len(),
    ensures
        ({
            let after = with_transforms(pieces, transforms, reports);
            &&& distinct_keys(after.tasks)
            &&& distinct_keys(after.inputs)
            &&& after.source_tasks == pieces.source_tasks
            &&& after.healthchecks == pieces.healthchecks
            &&& after.detach_triggers == pieces.detach_triggers
            &&& after.buffers == pieces.buffers
            &&& forall|i: int| #[trigger]
                last_transform(transforms, reports, i) && transforms[i].0 == key ==> lookup(
                    after.tasks,
                    key,
                ) == Some(reports[i]->task) && lookup(after.inputs, key) == Some(
                    (reports[i]->sender, transforms[i].1),
                )
            &&& !listed_built(transforms, reports, key) ==> lookup(after.tasks, key) == lookup(
                pieces.tasks,
                key,
            ) && lookup(after.inputs, key) == lookup(pieces.inputs, key)
        }),
    decreases reports.len(),
{
    if reports.len() > 0 {
        let front = reports.drop_last();
        let last = reports.len() - 1;
        let before = with_transforms(pieces, transforms, front);
        let after = with_transforms(pieces, transforms, reports);
        let name = transforms[last].0;
        lemma_transform_pieces(pieces, transforms, front, key);
        if let TransformReport::Built { sender, controls, task } = reports.last() {
            lemma_upsert_distinct(before.tasks, name, task);
            lemma_upsert_distinct(before.inputs, name, (sender, transforms[last].1));
            lemma_upsert_lookup(before.tasks, name, task, key);
            lemma_upsert_lookup(before.inputs, name, (sender, transforms[last].1), key);
        }
        assert(reports[last] == reports.last());
        assert forall|i: int| #[trigger]
            last_transform(transforms, reports, i) && transforms[i].0 == key implies lookup(
            after.tasks,
            key,
        ) == Some(reports[i]->task) && lookup(after.inputs, key) == Some(
            (reports[i]->sender, transforms[i].1),
        ) by {
            if i < last {
                assert(!(transforms[last].0 == key && reports[last] is Built));
                assert(front[i] == reports[i]);
                assert forall|j: int|
                    i < j < front.len() && transforms[j].0 == transforms[i].0 implies !(
                #[trigger] front[j] is Built) by {
                    assert(!(reports[j] is Built));
                }
                assert(last_transform(transforms, front, i));
            }
        }
        if !listed_built(transforms, reports, key) {
            assert(!(transforms[last].0 == key && reports[last] is Built));
            if listed_built(transforms, front, key) {
                let i = choose|i: int|
                    0 <= i < front.len() && #[trigger] transforms[i].0 == key && front[i] is Built;
                assert(transforms[i].0 == key && reports[i] is Built);
            }
        }
    }
}

/// What a sink at `i` is fed through: a buffer that was kept under its name, for the first sink of
/// the name, else the buffer that was built for it.
pub open spec fn feeds<W: Wiring>(
    buffers: Seq<(Seq<char>, (W::Sender, W::Receiver))>,
    sinks: Seq<(Seq<char>, Seq<OutputIdView>)>,
    reports: Seq<SinkReport<W>>,
    i: int,
    sender: W::Sender,
) -> bool {
    if has_key(buffers, sinks[i].0) && (forall|j: int|
        0 <= j < i ==> (#[trigger] sinks[j]).0 != sinks[i].0) {
        lookup(buffers, sinks[i].0) matches Some(buffer) && sender == buffer.0
    } else {
        reports[i].built matches Ok(sink) && sink.sender == Some(sender)
    }
}

proof fn lemma_sink_pieces<W: Wiring>(
    pieces: BuilderView<W>,
    sinks: Seq<(Seq<char>, Seq<OutputIdView>)>,
    reports: Seq<SinkReport<W>>,
    key: Seq<char>,
)
    requires
        distinct_keys(pieces.tasks),
        distinct_keys(pieces.inputs),
        distinct_keys(pieces.healthchecks),
        distinct_keys(pieces.detach_triggers),
        distinct_keys(pieces.buffers),
        reports.len() <= sinks.len(),
    ensures
        ({
            let after = with_sinks(pieces, sinks, reports);
            &&& distinct_keys(after.tasks)
            &&& distinct_keys(after.inputs)
            &&& distinct_keys(after.healthchecks)
            &&& distinct_keys(after.detach_triggers)
            &&& after.source_tasks == pieces.source_tasks
            &&& forall|i: int| #[trigger]
                last_sink(sinks, reports, i) && sinks[i].0 == key ==> {
                    let sink = reports[i].built->Ok_0;
                    let kept = lookup(buffers_left(pieces.buffers, sinks.take(i)), key);
                    &&& lookup(after.tasks, key) == Some(sink.task)
                    &&& lookup(after.healthchecks, key) == Some(sink.healthcheck)
                    &&& lookup(after.detach_triggers, key) == Some(sink.trigger)
                    &&& lookup(after.inputs, key) == Some(
                        (sink_sender(kept, sink.sender), sinks[i].1),
                    )
                }
            &&& !sink_built(sinks, reports, key) ==> lookup(after.tasks, key) == lookup(
                pieces.tasks,
                key,
            ) && lookup(after.inputs, key) == lookup(pieces.inputs, key) && lookup(
                after.healthchecks,
                key,
            ) == lookup(pieces.healthchecks, key) && lookup(after.detach_triggers, key) == lookup(
                pieces.detach_triggers,
                key,
            )
        }),
    decreases reports.len(),
{
    if reports.len() > 0 {
        let front = reports.drop_last();
        let last = reports.len() - 1;
        let before = with_sinks(pieces, sinks, front);
        let after = with_sinks(pieces, sinks, reports);
        let name = sinks[last].0;
        lemma_sink_pieces(pieces, sinks, front, key);
        lemma_buffers_after(pieces, sinks, front);
        if let Ok(sink) = reports.last().built {
            let sender = sink_sender(lookup(before.buffers, name), sink.sender);
            lemma_upsert_distinct(before.tasks, name, sink.task);
            lemma_upsert_distinct(before.inputs, name, (sender, sinks[last].1));
            lemma_upsert_distinct(before.healthchecks, name, sink.healthcheck);
            lemma_upsert_distinct(before.detach_triggers, name, sink.trigger);
            lemma_upsert_lookup(before.tasks, name, sink.task, key);
            lemma_upsert_lookup(before.inputs, name, (sender, sinks[last].1), key);
            lemma_upsert_lookup(before.healthchecks, name, sink.healthcheck, key);
            lemma_upsert_lookup(before.detach_triggers, name, sink.trigger, key);
        }
        assert(reports[last] == reports.last());
        assert forall|i: int| #[trigger]
            last_sink(sinks, reports, i) && sinks[i].0 == key implies ({
            let sink = reports[i].built->Ok_0;
            let kept = lookup(buffers_left(pieces.buffers, sinks.take(i)), key);
            &&& lookup(after.tasks, key) == Some(sink.task)
            &&& lookup(after.healthchecks, key) == Some(sink.healthcheck)
            &&& lookup(after.detach_triggers, key) == Some(sink.trigger)
            &&& lookup(after.inputs, key) == Some((sink_sender(kept, sink.sender), sinks[i].1))
        }) by {
            if i < last {
                assert(!(sinks[last].0 == key && reports[last].built is Ok));
                assert(front[i] == reports[i]);
                assert forall|j: int|
                    i < j < front.len() && sinks[j].0 == sinks[i].0 implies !(
                #[trigger] front[j].built is Ok) by {
                    assert(!(reports[j].built is Ok));
                }
                assert(last_sink(sinks, front, i));
            }
        }
        if !sink_built(sinks, reports, key) {
            assert(!(sinks[last].0 == key && reports[last].built is Ok));
            if sink_built(sinks, front, key) {
                let i = choose|i: int|
                    0 <= i < front.len() && #[trigger] sinks[i].0 == key && front[i].built is Ok;
                assert(sinks[i].0 == key && reports[i].built is Ok);
            }
        }
    }
}

/// What went into the pieces before the sinks.
proof fn lemma_stages<W: Wiring>(
    buffers: Seq<(Seq<char>, (W::Sender, W::Receiver))>,
    config: ConfigView<W>,
    diff: ConfigDiff,
    work: BuildWork<W>,
    key: Seq<char>,
)
    requires
        work_fits(work, buffers, config, diff),
    ensures
        ({
            let tables = with_tables(
                no_pieces::<W>(buffers),
                load_views(work.table_plan@),
                work.tables@,
            );
            let sources = with_sources(tables, source_plan(config, diff), work.sources@);
            let before = parts_before_sinks(buffers, config, diff, work);
            &&& distinct_keys(tables.tasks) && distinct_keys(tables.source_tasks)
            &&& tables.tasks.len() == 0 && tables.source_tasks.len() == 0
            &&& distinct_keys(sources.tasks) && distinct_keys(sources.inputs)
            &&& sources.inputs.len() == 0
            &&& distinct_keys(before.tasks) && distinct_keys(before.inputs)
            &&& before.healthchecks.len() == 0 && before.detach_triggers.len() == 0
            &&& before.source_tasks == sources.source_tasks
            &&& before.buffers == buffers
        }),
{
    let none = no_pieces::<W>(buffers);
    let tables = with_tables(none, load_views(work.table_plan@), work.tables@);
    let sources = with_sources(tables, source_plan(config, diff), work.sources@);
    law_table_errors(none, load_views(work.table_plan@), work.tables@);
    lemma_source_tasks(tables, source_plan(config, diff), work.sources@, key);
    match work.transforms {
        TransformReports::SchemaFailed => {},
        TransformReports::Built(list) => {
            lemma_transform_pieces(sources, transform_plan(config, diff), list@, key);
        },
    }
}

/// A source that was built is run: the pieces hold the task that was reported to run it, and the
/// task that was reported to move its events, under its name.
pub proof fn law_source_pieces<W: Wiring, F: FnOnce() -> (W::Emitter, W::Registry)>(
    builder: TopologyPiecesBuilder<'_, W>,
    fresh: F,
    work: BuildWork<W>,
    pieces: TopologyPieces<W>,
    i: int,
)
    requires
        call_ensures(TopologyPiecesBuilder::<W>::build::<F>, (builder, fresh, work), Ok(pieces)),
        work_fits(work, builder.buffers@, builder.config@, *builder.diff),
        last_source(source_plan(builder.config@, *builder.diff), work.sources@, i),
    ensures
        ({
            let key = source_plan(builder.config@, *builder.diff)[i];
            let transforms = transform_plan(builder.config@, *builder.diff);
            let sinks = sink_plan(builder.config@, *builder.diff);
            &&& work.sources@[i] matches SourceReport::Built { pump, server, .. }
            &&& lookup(pieces.source_tasks@, key) == Some(server)
            &&& !transform_built(transforms, work.transforms, key) && !sink_built(
                sinks,
                work.sinks@,
                key,
            ) ==> lookup(pieces.tasks@, key) == Some(pump)
        }),
{
    let buffers = builder.buffers@;
    let config = builder.config@;
    let diff = *builder.diff;
    let keys = source_plan(config, diff);
    let key = keys[i];
    let tables = with_tables(no_pieces::<W>(buffers), load_views(work.table_plan@), work.tables@);
    let sources = with_sources(tables, keys, work.sources@);
    let before = parts_before_sinks(buffers, config, diff, work);
    lemma_stages(buffers, config, diff, work, key);
    lemma_source_tasks(tables, keys, work.sources@, key);
    match work.transforms {
        TransformReports::SchemaFailed => {},
        TransformReports::Built(list) => {
            lemma_transform_pieces(sources, transform_plan(config, diff), list@, key);
        },
    }
    lemma_sink_tasks(before, sink_plan(config, diff), work.sinks@, key);
    assert(is_made_of(pieces, all_parts(buffers, config, diff, work)));
}

proof fn lemma_sink_tasks<W: Wiring>(
    pieces: BuilderView<W>,
    sinks: Seq<(Seq<char>, Seq<OutputIdView>)>,
    reports: Seq<SinkReport<W>>,
    key: Seq<char>,
)
    requires
        distinct_keys(pieces.tasks),
        distinct_keys(pieces.inputs),
        reports.len() <= sinks.len(),
    ensures
        ({
            let after = with_sinks(pieces, sinks, reports);
            &&& distinct_keys(after.tasks)
            &&& distinct_keys(after.inputs)
            &&& after.source_tasks == pieces.source_tasks
            &&& !sink_built(sinks, reports, key) ==> lookup(after.tasks, key) == lookup(
                pieces.tasks,
                key,
            ) && lookup(after.inputs, key) == lookup(pieces.inputs, key)
        }),
    decreases reports.len(),
{
    if reports.len() > 0 {
        let front = reports.drop_last();
        let last = reports.len() - 1;
        let before = with_sinks(pieces, sinks, front);
        let name = sinks[last].0;
        lemma_sink_tasks(pieces, sinks, front, key);
        if let Ok(sink) = reports.last().built {
            let sender = sink_sender(lookup(before.buffers, name), sink.sender);
            lemma_upsert_distinct(before.tasks, name, sink.task);
            lemma_upsert_distinct(before.inputs, name, (sender, sinks[last].1));
            lemma_upsert_lookup(before.tasks, name, sink.task, key);
            lemma_upsert_lookup(before.inputs, name, (sender, sinks[last].1), key);
        }
        assert(reports[last] == reports.last());
        if !sink_built(sinks, reports, key) {
            assert(!(sinks[last].0 == key && reports[last].built is Ok));
            if sink_built(sinks, front, key) {
                let i = choose|i: int|
                    0 <= i < front.len() && #[trigger] sinks[i].0 == key && front[i].built is Ok;
                assert(sinks[i].0 == key && reports[i].built is Ok);
            }
        }
    }
}

/// A transform that was built is run and fed: the pieces hold the task that was reported to run it,
/// and the buffer that was reported for it, to be filled from what the transform reads from.
pub proof fn law_transform_pieces<W: Wiring, F: FnOnce() -> (W::Emitter, W::Registry)>(
    builder: TopologyPiecesBuilder<'_, W>,
    fresh: F,
    work: BuildWork<W>,
    pieces: TopologyPieces<W>,
    list: Vec<TransformReport<W>>,
    i: int,
)
    requires
        call_ensures(TopologyPiecesBuilder::<W>::build::<F>, (builder, fresh, work), Ok(pieces)),
        work_fits(work, builder.buffers@, builder.config@, *builder.diff),
        work.transforms == TransformReports::Built(list),
        last_transform(transform_plan(builder.config@, *builder.diff), list@, i),
    ensures
        ({
            let transforms = transform_plan(builder.config@, *builder.diff);
            let sinks = sink_plan(builder.config@, *builder.diff);
            let key = transforms[i].0;
            &&& list@[i] matches TransformReport::Built { sender, task, .. }
            &&& !sink_built(sinks, work.sinks@, key) ==> {
                &&& lookup(pieces.tasks@, key) == Some(task)
                &&& lookup(pieces.inputs@, key) matches Some(input) && input.0 == sender && views(
                    input.1@,
                ) == transforms[i].1
            }
        }),
{
    let buffers = builder.buffers@;
    let config = builder.config@;
    let diff = *builder.diff;
    let transforms = transform_plan(config, diff);
    let key = transforms[i].0;
    let tables = with_tables(no_pieces::<W>(buffers), load_views(work.table_plan@), work.tables@);
    let sources = with_sources(tables, source_plan(config, diff), work.sources@);
    let before = parts_before_sinks(buffers, config, diff, work);
    lemma_stages(buffers, config, diff, work, key);
    lemma_transform_pieces(sources, transforms, list@, key);
    lemma_sink_tasks(before, sink_plan(config, diff), work.sinks@, key);
    let parts = all_parts(buffers, config, diff, work);
    assert(is_made_of(pieces, parts));
    lemma_fed_lookup(pieces.inputs@, key);
}

proof fn lemma_fed_lookup<S>(entries: Seq<(Seq<char>, InputEntry<S>)>, key: Seq<char>)
    requires
        distinct_keys(fed(entries)),
    ensures
        lookup(fed(entries), key) == (match lookup(entries, key) {
            Some(input) => Some((input.0, views(input.1@))),
            None => None,
        }),
{
    let mapped = fed(entries);
    assert forall|i: int, j: int| 0 <= i < j < entries.len() implies (#[trigger] entries[i]).0 != (
    #[trigger] entries[j]).0 by {
        assert(mapped[i].0 != mapped[j].0);
    }
    lemma_slot_mapped(entries, mapped, key);
    if has_key(entries, key) {
        let k = slot_of(entries, key);
        assert(entries[k].0 == key);
        assert(mapped[k] == (entries[k].0, (entries[k].1.0, views(entries[k].1.1@))));
    }
}

/// A sink that was built is run, fed, checked and detached: the pieces hold the task that was
/// reported to run it, its healthcheck and its trigger, and its buffer, to be filled from what the
/// sink reads from.
pub proof fn law_sink_pieces<W: Wiring, F: FnOnce() -> (W::Emitter, W::Registry)>(
    builder: TopologyPiecesBuilder<'_, W>,
    fresh: F,
    work: BuildWork<W>,
    pieces: TopologyPieces<W>,
    i: int,
)
    requires
        call_ensures(TopologyPiecesBuilder::<W>::build::<F>, (builder, fresh, work), Ok(pieces)),
        work_fits(work, builder.buffers@, builder.config@, *builder.diff),
        distinct_keys(builder.buffers@),
        last_sink(sink_plan(builder.config@, *builder.diff), work.sinks@, i),
    ensures
        ({
            let sinks = sink_plan(builder.config@, *builder.diff);
            let key = sinks[i].0;
            &&& work.sinks@[i].built matches Ok(sink)
            &&& lookup(pieces.tasks@, key) == Some(sink.task)
            &&& lookup(pieces.healthchecks@, key) == Some(sink.healthcheck)
            &&& lookup(pieces.detach_triggers@, key) == Some(sink.trigger)
            &&& lookup(pieces.inputs@, key) matches Some(input) && views(input.1@) == sinks[i].1
                && feeds(builder.buffers@, sinks, work.sinks@, i, input.0)
        }),
{
    let buffers = builder.buffers@;
    let config = builder.config@;
    let diff = *builder.diff;
    let sinks = sink_plan(config, diff);
    let key = sinks[i].0;
    let before = parts_before_sinks(buffers, config, diff, work);
    lemma_stages(buffers, config, diff, work, key);
    lemma_sink_pieces(before, sinks, work.sinks@, key);
    let parts = all_parts(buffers, config, diff, work);
    assert(is_made_of(pieces, parts));
    lemma_fed_lookup(pieces.inputs@, key);
    law_buffers_are_handed_out_once(buffers, sinks, i);
    lemma_kept_at(buffers, sinks, i);
    assert(kept_buffers(buffers, sinks)[i] is Some || has_sender(work.sinks@[i]));
    assert(named_before(sinks, i) == !(forall|j: int|
        0 <= j < i ==> (#[trigger] sinks[j]).0 != sinks[i].0)) by {
        if named_before(sinks, i) {
            let j = choose|j: int| 0 <= j < i && #[trigger] sinks[j].0 == sinks[i].0;
            assert(sinks[j].0 == sinks[i].0);
        }
    }
}

/// The pieces hold nothing but what was built: a healthcheck or a trigger only of a sink, an input
/// only of a transform or a sink, a task that runs a source only of a source, and a task only of
/// one of them.
pub proof fn law_no_other_pieces<W: Wiring, F: FnOnce() -> (W::Emitter, W::Registry)>(
    builder: TopologyPiecesBuilder<'_, W>,
    fresh: F,
    work: BuildWork<W>,
    pieces: TopologyPieces<W>,
    key: Seq<char>,
)
    requires
        call_ensures(TopologyPiecesBuilder::<W>::build::<F>, (builder, fresh, work), Ok(pieces)),
        work_fits(work, builder.buffers@, builder.config@, *builder.diff),
    ensures
        ({
            let config = builder.config@;
            let source = source_built(source_plan(config, *builder.diff), work.sources@, key);
            let transform = transform_built(
                transform_plan(config, *builder.diff),
                work.transforms,
                key,
            );
            let sink = sink_built(sink_plan(config, *builder.diff), work.sinks@, key);
            &&& has_key(pieces.source_tasks@, key) == source
            &&& has_key(pieces.healthchecks@, key) == sink
            &&& has_key(pieces.detach_triggers@, key) == sink
            &&& has_key(pieces.inputs@, key) == (transform || sink)
            &&& has_key(pieces.tasks@, key) == (source || transform || sink)
        }),
{
    let parts = all_parts(builder.buffers@, builder.config@, *builder.diff, work);
    law_pieces(builder.buffers@, builder.config@, *builder.diff, work, key);
    assert(is_made_of(pieces, parts));
    let mapped = fed(pieces.inputs@);
    if has_key(pieces.inputs@, key) {
        let k = slot_of(pieces.inputs@, key);
        assert(pieces.inputs@[k].0 == key);
        assert(mapped[k].0 == key);
    }
    if has_key(mapped, key) {
        let k = slot_of(mapped, key);
        assert(mapped[k].0 == key);
        assert(pieces.inputs@[k].0 == key);
    }
}

// ---------------------------------------------------------------------------------------------
// What went wrong.
// ---------------------------------------------------------------------------------------------

/// What is said of a component that failed: its kind, its name in quotes, and why.
pub open spec fn says(
    message: Seq<char>,
    kind: Seq<char>,
    name: Seq<char>,
    why: Seq<char>,
) -> bool {
    message == kind + " \""@ + name + "\": "@ + why
}

/// A table could not be built, and the message says so.
pub open spec fn tells_of_table(
    plan: Seq<TableLoad>,
    reports: Seq<TableReport<()>>,
    i: int,
    message: Seq<char>,
) -> bool {
    &&& 0 <= i < reports.len()
    &&& reports[i] matches TableReport::Failed(error) && says(
        message,
        "Enrichment Table"@,
        plan[i].name@,
        error@,
    )
}

/// A source could not be built, and the message says so.
pub open spec fn tells_of_source<W: Wiring>(
    keys: Seq<Seq<char>>,
    reports: Seq<SourceReport<W>>,
    i: int,
    message: Seq<char>,
) -> bool {
    &&& 0 <= i < reports.len()
    &&& reports[i] matches SourceReport::Failed(error) && says(message, "Source"@, keys[i], error@)
}

/// A transform could not be built, or the work of building it panicked, and the message says so.
pub open spec fn tells_of_transform<W: Wiring>(
    transforms: Seq<(Seq<char>, Seq<OutputIdView>)>,
    reports: Seq<TransformReport<W>>,
    i: int,
    message: Seq<char>,
) -> bool {
    &&& 0 <= i < reports.len()
    &&& match reports[i] {
        TransformReport::Failed(error) => says(message, "Transform"@, transforms[i].0, error@),
        TransformReport::Panicked(error) => says(
            message,
            "Transform"@,
            transforms[i].0,
            "task panicked: "@ + error@,
        ),
        TransformReport::Built { .. } => false,
    }
}

/// A sink does not get what it expects or could not be built, and the message says so.
pub open spec fn tells_of_sink<W: Wiring>(
    sinks: Seq<(Seq<char>, Seq<OutputIdView>)>,
    reports: Seq<SinkReport<W>>,
    i: int,
    message: Seq<char>,
) -> bool {
    &&& 0 <= i < reports.len()
    &&& texts(reports[i].expectations@).contains(message) || (reports[i].built matches Err(error)
        && says(message, "Sink"@, sinks[i].0, error@))
}

proof fn lemma_either<T>(head: Seq<T>, tail: Seq<T>, item: T)
    ensures
        (head + tail).contains(item) <==> head.contains(item) || tail.contains(item),
{
    let both = head + tail;
    if head.contains(item) {
        assert(both[head.index_of(item)] == item);
    }
    if tail.contains(item) {
        assert(both[head.len() + tail.index_of(item)] == item);
    }
    if both.contains(item) {
        let k = both.index_of(item);
        if k < head.len() {
            assert(head[k] == item);
        } else {
            assert(tail[k - head.len()] == item);
        }
    }
}

proof fn lemma_single<T>(only: T, item: T)
    ensures
        seq![only].contains(item) <==> only == item,
{
    if only == item {
        assert(seq![only][0] == item);
    }
}

proof fn lemma_tables_told(plan: Seq<TableLoad>, reports: Seq<TableReport<()>>, message: Seq<char>)
    requires
        reports.len() <= plan.len(),
    ensures
        table_errors(load_views(plan), reports).contains(message) <==> exists|i: int| #[trigger]
            tells_of_table(plan, reports, i, message),
    decreases reports.len(),
{
    if reports.len() > 0 {
        let front = reports.drop_last();
        let last = reports.len() - 1;
        assert(reports[last] == reports.last());
        let head = table_errors(load_views(plan), front);
        lemma_tables_told(plan, front, message);
        assert(load_views(plan)[last].0 == plan[last].name@);
        if let TableReport::Failed(error) = reports.last() {
            let own = component_error("Enrichment Table"@, plan[last].name@, error@);
            lemma_either(head, seq![own], message);
            lemma_single(own, message);
        } else {
            assert(table_errors(load_views(plan), reports) =~= head);
        }
        let here = tells_of_table(plan, reports, last, message);
        assert(table_errors(load_views(plan), reports).contains(message) <==> head.contains(message)
            || here);
        assert forall|i: int| i != last implies #[trigger] tells_of_table(plan, reports, i, message)
            == tells_of_table(plan, front, i, message) by {}
        if exists|i: int| #[trigger] tells_of_table(plan, front, i, message) {
            let i = choose|i: int| #[trigger] tells_of_table(plan, front, i, message);
            assert(tells_of_table(plan, reports, i, message));
        }
        if exists|i: int| #[trigger] tells_of_table(plan, reports, i, message) {
            let i = choose|i: int| #[trigger] tells_of_table(plan, reports, i, message);
            assert(i == last || tells_of_table(plan, front, i, message));
        }
    }
}

proof fn lemma_sources_told<W: Wiring>(
    keys: Seq<Seq<char>>,
    reports: Seq<SourceReport<W>>,
    message: Seq<char>,
)
    ensures
        source_errors(keys, reports).contains(message) <==> exists|i: int| #[trigger]
            tells_of_source(keys, reports, i, message),
    decreases reports.len(),
{
    if reports.len() > 0 {
        let front = reports.drop_last();
        let last = reports.len() - 1;
        assert(reports[last] == reports.last());
        let head = source_errors(keys, front);
        lemma_sources_told(keys, front, message);
        if let SourceReport::Failed(error) = reports.last() {
            let own = component_error("Source"@, keys[last], error@);
            lemma_either(head, seq![own], message);
            lemma_single(own, message);
        } else {
            assert(source_errors(keys, reports) =~= head);
        }
        let here = tells_of_source(keys, reports, last, message);
        assert(source_errors(keys, reports).contains(message) <==> head.contains(message) || here);
        assert forall|i: int| i != last implies #[trigger] tells_of_source(
            keys,
            reports,
            i,
            message,
        ) == tells_of_source(keys, front, i, message) by {}
        if exists|i: int| #[trigger] tells_of_source(keys, front, i, message) {
            let i = choose|i: int| #[trigger] tells_of_source(keys, front, i, message);
            assert(tells_of_source(keys, reports, i, message));
        }
        if exists|i: int| #[trigger] tells_of_source(keys, reports, i, message) {
            let i = choose|i: int| #[trigger] tells_of_source(keys, reports, i, message);
            assert(i == last || tells_of_source(keys, front, i, message));
        }
    }
}

proof fn lemma_transforms_told<W: Wiring>(
    transforms: Seq<(Seq<char>, Seq<OutputIdView>)>,
    reports: Seq<TransformReport<W>>,
    message: Seq<char>,
)
    ensures
        transform_errors(transforms, reports).contains(message) <==> exists|i: int| #[trigger]
            tells_of_transform(transforms, reports, i, message),
    decreases reports.len(),
{
    if reports.len() > 0 {
        let front = reports.drop_last();
        let last = reports.len() - 1;
        assert(reports[last] == reports.last());
        let head = transform_errors(transforms, front);
        lemma_transforms_told(transforms, front, message);
        match reports.last() {
            TransformReport::Failed(error) => {
                let own = component_error("Transform"@, transforms[last].0, error@);
                lemma_either(head, seq![own], message);
                lemma_single(own, message);
            },
            TransformReport::Panicked(error) => {
                let why = "task panicked: "@ + error@;
                let own = component_error("Transform"@, transforms[last].0, why);
                lemma_either(head, seq![own], message);
                lemma_single(own, message);
            },
            TransformReport::Built { .. } => {
                assert(transform_errors(transforms, reports) =~= head);
            },
        }
        let here = tells_of_transform(transforms, reports, last, message);
        assert(transform_errors(transforms, reports).contains(message) <==> head.contains(message)
            || here);
        assert forall|i: int| i != last implies #[trigger] tells_of_transform(
            transforms,
            reports,
            i,
            message,
        ) == tells_of_transform(transforms, front, i, message) by {}
        if exists|i: int| #[trigger] tells_of_transform(transforms, front, i, message) {
            let i = choose|i: int| #[trigger] tells_of_transform(transforms, front, i, message);
            assert(tells_of_transform(transforms, reports, i, message));
        }
        if exists|i: int| #[trigger] tells_of_transform(transforms, reports, i, message) {
            let i = choose|i: int| #[trigger] tells_of_transform(transforms, reports, i, message);
            assert(i == last || tells_of_transform(transforms, front, i, message));
        }
    }
}

proof fn lemma_sinks_told<W: Wiring>(
    sinks: Seq<(Seq<char>, Seq<OutputIdView>)>,
    reports: Seq<SinkReport<W>>,
    message: Seq<char>,
)
    ensures
        sink_errors(sinks, reports).contains(message) <==> exists|i: int| #[trigger]
            tells_of_sink(sinks, reports, i, message),
    decreases reports.len(),
{
    if reports.len() > 0 {
        let front = reports.drop_last();
        let last = reports.len() - 1;
        assert(reports[last] == reports.last());
        let head = sink_errors(sinks, front);
        let wrong = texts(reports.last().expectations@);
        lemma_sinks_told(sinks, front, message);
        lemma_either(head, wrong, message);
        if let Err(error) = reports.last().built {
            let own = component_error("Sink"@, sinks[last].0, error@);
            lemma_either(head + wrong, seq![own], message);
            lemma_single(own, message);
        } else {
            assert(sink_errors(sinks, reports) =~= head + wrong);
        }
        let here = tells_of_sink(sinks, reports, last, message);
        assert(sink_errors(sinks, reports).contains(message) <==> head.contains(message) || here);
        assert forall|i: int| i != last implies #[trigger] tells_of_sink(sinks, reports, i, message)
            == tells_of_sink(sinks, front, i, message) by {}
        if exists|i: int| #[trigger] tells_of_sink(sinks, front, i, message) {
            let i = choose|i: int| #[trigger] tells_of_sink(sinks, front, i, message);
            assert(tells_of_sink(sinks, reports, i, message));
        }
        if exists|i: int| #[trigger] tells_of_sink(sinks, reports, i, message) {
            let i = choose|i: int| #[trigger] tells_of_sink(sinks, reports, i, message);
            assert(i == last || tells_of_sink(sinks, front, i, message));
        }
    }
}

/// The pieces are handed out exactly where nothing went wrong; else each thing that went wrong is
/// told, and nothing else.
pub proof fn law_failures_are_told<W: Wiring, F: FnOnce() -> (W::Emitter, W::Registry)>(
    builder: TopologyPiecesBuilder<'_, W>,
    fresh: F,
    work: BuildWork<W>,
    result: Result<TopologyPieces<W>, Vec<String>>,
    message: Seq<char>,
)
    requires
        call_ensures(TopologyPiecesBuilder::<W>::build::<F>, (builder, fresh, work), result),
        work_fits(work, builder.buffers@, builder.config@, *builder.diff),
    ensures
        ({
            let config = builder.config@;
            let keys = source_plan(config, *builder.diff);
            let transforms = transform_plan(config, *builder.diff);
            let sinks = sink_plan(config, *builder.diff);
            let told = (exists|i: int| #[trigger]
                tells_of_table(work.table_plan@, work.tables@, i, message)) || (exists|i: int|
                #[trigger]
                tells_of_source(keys, work.sources@, i, message)) || (
            work.transforms matches TransformReports::Built(list) && (exists|i: int| #[trigger]
                tells_of_transform(transforms, list@, i, message))) || (exists|i: int| #[trigger]
                tells_of_sink(sinks, work.sinks@, i, message));
            match result {
                Ok(_) => !told,
                Err(errors) => errors@.len() > 0 && (texts(errors@).contains(message) <==> told),
            }
        }),
{
    let config = builder.config@;
    let diff = *builder.diff;
    let keys = source_plan(config, diff);
    let transforms = transform_plan(config, diff);
    let sinks = sink_plan(config, diff);
    let errors = all_parts(builder.buffers@, config, diff, work).errors;
    law_errors_in_order(builder.buffers@, config, diff, work);
    lemma_tables_told(work.table_plan@, work.tables@, message);
    lemma_sources_told(keys, work.sources@, message);
    lemma_sinks_told(sinks, work.sinks@, message);
    let first = table_errors(load_views(work.table_plan@), work.tables@);
    let second = source_errors(keys, work.sources@);
    let third = all_transform_errors(transforms, work.transforms);
    let fourth = sink_errors(sinks, work.sinks@);
    match work.transforms {
        TransformReports::SchemaFailed => {},
        TransformReports::Built(list) => {
            lemma_transforms_told(transforms, list@, message);
        },
    }
    lemma_either(first, second, message);
    lemma_either(first + second, third, message);
    lemma_either(first + second + third, fourth, message);
    assert(errors == first + second + third + fourth);
    if let Err(list) = result {
        assert(texts(list@).len() == list@.len());
    }
}

// ---------------------------------------------------------------------------------------------
// What has to be built.
// ---------------------------------------------------------------------------------------------

/// A new configuration adds the component, or changes it.
pub open spec fn comes_anew(difference: Difference, key: Seq<char>) -> bool {
    lookup(difference.changes@, key) == Some(Change::Added) || lookup(difference.changes@, key)
        == Some(Change::Changed)
}

proof fn lemma_only_new_contains<V>(
    entries: Seq<(Seq<char>, V)>,
    difference: Difference,
    entry: (Seq<char>, V),
)
    ensures
        only_new(entries, difference@).contains(entry) <==> entries.contains(entry) && comes_anew(
            difference,
            entry.0,
        ),
{
    law_only_new(entries, difference@);
    let kept = only_new(entries, difference@);
    if kept.contains(entry) {
        let i = kept.index_of(entry);
        assert(kept[i] == entry);
    }
    if entries.contains(entry) && comes_anew(difference, entry.0) {
        let i = entries.index_of(entry);
        assert(entries[i] == entry);
    }
}

/// The table is fed through a sink, and the sink is this one.
pub open spec fn has_sink<T, D: Domain>(
    table: TableView<T, D>,
    sink: (Seq<char>, SinkView<T, D>),
) -> bool {
    table.sink == Some((sink.0, sink.1.inner)) && table.inputs == sink.1.inputs
}

proof fn lemma_table_sinks_contain<T, D: Domain>(
    tables: Seq<(Seq<char>, TableView<T, D>)>,
    sink: (Seq<char>, SinkView<T, D>),
)
    ensures
        table_sinks(tables).contains(sink) <==> exists|i: int|
            0 <= i < tables.len() && has_sink((#[trigger] tables[i]).1, sink),
    decreases tables.len(),
{
    if tables.len() > 0 {
        let front = tables.drop_last();
        let last = tables.len() - 1;
        lemma_table_sinks_contain(front, sink);
        assert(tables[last] == tables.last());
        let head = table_sinks(front);
        match tables.last().1.sink {
            Some((name, inner)) => {
                let own = (name, SinkView::<T, D> { inputs: tables.last().1.inputs, inner });
                assert(table_sinks(tables) =~= head + seq![own]);
                lemma_either(head, seq![own], sink);
                lemma_single(own, sink);
                if has_sink(tables.last().1, sink) {
                    assert(own.1 =~= sink.1);
                }
            },
            None => {},
        }
        if exists|i: int| 0 <= i < front.len() && has_sink((#[trigger] front[i]).1, sink) {
            let i = choose|i: int| 0 <= i < front.len() && has_sink((#[trigger] front[i]).1, sink);
            assert(has_sink(tables[i].1, sink));
        }
        if exists|i: int| 0 <= i < tables.len() && has_sink((#[trigger] tables[i]).1, sink) {
            let i = choose|i: int|
                0 <= i < tables.len() && has_sink((#[trigger] tables[i]).1, sink);
            if i < last {
                assert(has_sink(front[i].1, sink));
            }
        }
    }
}

proof fn lemma_table_sources_contain<T, D: Domain>(
    tables: Seq<(Seq<char>, TableView<T, D>)>,
    source: (Seq<char>, SourceOuter<D>),
)
    ensures
        table_sources(tables).contains(source) <==> exists|i: int|
            0 <= i < tables.len() && (#[trigger] tables[i]).1.source == Some(source),
    decreases tables.len(),
{
    if tables.len() > 0 {
        let front = tables.drop_last();
        let last = tables.len() - 1;
        lemma_table_sources_contain(front, source);
        assert(tables[last] == tables.last());
        let head = table_sources(front);
        match tables.last().1.source {
            Some(own) => {
                assert(table_sources(tables) =~= head + seq![own]);
                lemma_either(head, seq![own], source);
                lemma_single(own, source);
            },
            None => {},
        }
        if exists|i: int| 0 <= i < front.len() && (#[trigger] front[i]).1.source == Some(source) {
            let i = choose|i: int|
                0 <= i < front.len() && (#[trigger] front[i]).1.source == Some(source);
            assert(tables[i].1.source == Some(source));
        }
        if exists|i: int| 0 <= i < tables.len() && (#[trigger] tables[i]).1.source == Some(
            source,
        ) {
            let i = choose|i: int|
                0 <= i < tables.len() && (#[trigger] tables[i]).1.source == Some(source);
            if i < last {
                assert(front[i].1.source == Some(source));
            }
        }
    }
}

/// A source is built exactly where it is written down and comes anew, or where a table is read
/// through it and it comes anew among what tables have.
pub proof fn law_sources_to_build<D: Domain>(
    config: ConfigView<D>,
    diff: ConfigDiff,
    key: Seq<char>,
)
    ensures
        source_plan(config, diff).contains(key) <==> (comes_anew(diff.sources, key) && (exists|
            i: int,
        |
            0 <= i < config.sources.len() && (#[trigger] config.sources[i]).0 == key)) || (
        comes_anew(diff.enrichment_tables, key) && (exists|i: int|
            0 <= i < config.enrichment_tables.len() && ((
            #[trigger] config.enrichment_tables[i]).1.source matches Some(source) && source.0
                == key))),
{
    let own = only_new(config.sources, diff.sources@);
    let tables = table_sources(config.enrichment_tables);
    let of_tables = only_new(tables, diff.enrichment_tables@);
    let all = new_source_entries(config, diff);
    let plan = source_plan(config, diff);
    assert(all == own + of_tables);
    if plan.contains(key) {
        let k = plan.index_of(key);
        let entry = all[k];
        assert(entry.0 == key);
        assert(all.contains(entry));
        lemma_either(own, of_tables, entry);
        lemma_only_new_contains(config.sources, diff.sources, entry);
        lemma_only_new_contains(tables, diff.enrichment_tables, entry);
        if own.contains(entry) {
            let i = config.sources.index_of(entry);
            assert(config.sources[i].0 == key);
        } else {
            lemma_table_sources_contain(config.enrichment_tables, entry);
        }
    }
    if comes_anew(diff.sources, key) && (exists|i: int|
        0 <= i < config.sources.len() && (#[trigger] config.sources[i]).0 == key) {
        let i = choose|i: int|
            0 <= i < config.sources.len() && (#[trigger] config.sources[i]).0 == key;
        let entry = config.sources[i];
        assert(config.sources.contains(entry));
        lemma_only_new_contains(config.sources, diff.sources, entry);
        lemma_either(own, of_tables, entry);
        assert(plan[all.index_of(entry)] == key);
    }
    if comes_anew(diff.enrichment_tables, key) && (exists|i: int|
        0 <= i < config.enrichment_tables.len() && ((
        #[trigger] config.enrichment_tables[i]).1.source matches Some(source) && source.0
            == key)) {
        let i = choose|i: int|
            0 <= i < config.enrichment_tables.len() && ((
            #[trigger] config.enrichment_tables[i]).1.source matches Some(source) && source.0
                == key);
        let entry = config.enrichment_tables[i].1.source->0;
        lemma_table_sources_contain(config.enrichment_tables, entry);
        lemma_only_new_contains(tables, diff.enrichment_tables, entry);
        lemma_either(own, of_tables, entry);
        assert(plan[all.index_of(entry)] == key);
    }
}

/// A transform is built exactly where it is written down and comes anew, and it reads from what is
/// written down for it.
pub proof fn law_transforms_to_build<D: Domain>(
    config: ConfigView<D>,
    diff: ConfigDiff,
    key: Seq<char>,
    inputs: Seq<OutputIdView>,
)
    ensures
        transform_plan(config, diff).contains((key, inputs)) <==> comes_anew(diff.transforms, key)
            && (exists|i: int|
            0 <= i < config.transforms.len() && (#[trigger] config.transforms[i]).0 == key
                && config.transforms[i].1.inputs == inputs),
{
    let kept = only_new(config.transforms, diff.transforms@);
    let plan = transform_plan(config, diff);
    if plan.contains((key, inputs)) {
        let k = plan.index_of((key, inputs));
        assert(kept.contains(kept[k]));
        lemma_only_new_contains(config.transforms, diff.transforms, kept[k]);
        let i = config.transforms.index_of(kept[k]);
        assert(config.transforms[i].0 == key);
    }
    if comes_anew(diff.transforms, key) && (exists|i: int|
        0 <= i < config.transforms.len() && (#[trigger] config.transforms[i]).0 == key
            && config.transforms[i].1.inputs == inputs) {
        let i = choose|i: int|
            0 <= i < config.transforms.len() && (#[trigger] config.transforms[i]).0 == key
                && config.transforms[i].1.inputs == inputs;
        let entry = config.transforms[i];
        assert(config.transforms.contains(entry));
        lemma_only_new_contains(config.transforms, diff.transforms, entry);
        assert(plan[kept.index_of(entry)] == (key, inputs));
    }
}

/// A sink is built exactly where it is written down and comes anew, or where a table is fed through
/// it and it comes anew among what tables have; and it reads from what is written down for it, or
/// for the table.
pub proof fn law_sinks_to_build<D: Domain>(
    config: ConfigView<D>,
    diff: ConfigDiff,
    key: Seq<char>,
    inputs: Seq<OutputIdView>,
)
    ensures
        sink_plan(config, diff).contains((key, inputs)) <==> (comes_anew(diff.sinks, key) && (
        exists|i: int|
            0 <= i < config.sinks.len() && (#[trigger] config.sinks[i]).0 == key
                && config.sinks[i].1.inputs == inputs)) || (comes_anew(diff.enrichment_tables, key)
            && (exists|i: int|
            0 <= i < config.enrichment_tables.len() && ((
            #[trigger] config.enrichment_tables[i]).1.sink matches Some(sink) && sink.0 == key)
                && config.enrichment_tables[i].1.inputs == inputs)),
{
    let own = only_new(config.sinks, diff.sinks@);
    let tables = table_sinks(config.enrichment_tables);
    let of_tables = only_new(tables, diff.enrichment_tables@);
    let all = new_sink_entries(config, diff);
    let plan = sink_plan(config, diff);
    assert(all == own + of_tables);
    if plan.contains((key, inputs)) {
        let k = plan.index_of((key, inputs));
        let entry = all[k];
        assert(all.contains(entry));
        lemma_either(own, of_tables, entry);
        lemma_only_new_contains(config.sinks, diff.sinks, entry);
        lemma_only_new_contains(tables, diff.enrichment_tables, entry);
        if own.contains(entry) {
            let i = config.sinks.index_of(entry);
            assert(config.sinks[i].0 == key);
        } else {
            lemma_table_sinks_contain(config.enrichment_tables, entry);
            let i = choose|i: int|
                0 <= i < config.enrichment_tables.len() && has_sink(
                    (#[trigger] config.enrichment_tables[i]).1,
                    entry,
                );
            assert(config.enrichment_tables[i].1.inputs == inputs);
        }
    }
    if comes_anew(diff.sinks, key) && (exists|i: int|
        0 <= i < config.sinks.len() && (#[trigger] config.sinks[i]).0 == key
            && config.sinks[i].1.inputs == inputs) {
        let i = choose|i: int|
            0 <= i < config.sinks.len() && (#[trigger] config.sinks[i]).0 == key
                && config.sinks[i].1.inputs == inputs;
        let entry = config.sinks[i];
        assert(config.sinks.contains(entry));
        lemma_only_new_contains(config.sinks, diff.sinks, entry);
        lemma_either(own, of_tables, entry);
        assert(plan[all.index_of(entry)] == (key, inputs));
    }
    if comes_anew(diff.enrichment_tables, key) && (exists|i: int|
        0 <= i < config.enrichment_tables.len() && ((
        #[trigger] config.enrichment_tables[i]).1.sink matches Some(sink) && sink.0 == key)
            && config.enrichment_tables[i].1.inputs == inputs) {
        let i = choose|i: int|
            0 <= i < config.enrichment_tables.len() && ((
            #[trigger] config.enrichment_tables[i]).1.sink matches Some(sink) && sink.0 == key)
                && config.enrichment_tables[i].1.inputs == inputs;
        let table = config.enrichment_tables[i].1;
        let entry = (key, SinkView::<OutputIdView, D> { inputs, inner: (table.sink->0).1 });
        assert(has_sink(config.enrichment_tables[i].1, entry));
        lemma_table_sinks_contain(config.enrichment_tables, entry);
        lemma_only_new_contains(tables, diff.enrichment_tables, entry);
        lemma_either(own, of_tables, entry);
        assert(plan[all.index_of(entry)] == (key, inputs));
    }
}

} // verus!

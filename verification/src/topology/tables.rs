//! Enrichment tables: which are loaded, and which of those that were built are taken over.

use vstd::prelude::*;

use crate::config::{ComponentKey, Config, Domain};
use crate::ordered::{
    distinct_keys, extended, lemma_upsert_distinct, lemma_upsert_lookup, lookup, ComponentMap,
};
use crate::text::texts;
use crate::topology::builder::{
    describe_error, same_frame, with_table, Builder, BuilderView, TableReport, Wiring,
};
use crate::topology::diff::{Change, ConfigDiff};

verus! {

/// A table that has to be loaded. Where it replaces a table, the indexes of that table are added
/// to it again.
pub struct TableLoad {
    pub name: ComponentKey,
    pub keep_indexes: bool,
}

impl View for TableLoad {
    type V = (Seq<char>, bool);

    open spec fn view(&self) -> (Seq<char>, bool) {
        (self.name@, self.keep_indexes)
    }
}

/// What each entry of a plan stands for.
pub open spec fn load_views(plan: Seq<TableLoad>) -> Seq<(Seq<char>, bool)> {
    plan.map_values(|load: TableLoad| load@)
}

/// The tables that have to be loaded, in order: those that need it. A table that was not there
/// before has no indexes to keep.
pub open spec fn due_tables<V>(
    tables: Seq<(Seq<char>, V)>,
    changes: Seq<(Seq<char>, Change)>,
    needs_reload: Seq<bool>,
) -> Seq<(Seq<char>, bool)>
    decreases tables.len(),
{
    if tables.len() == 0 {
        Seq::empty()
    } else {
        let front = due_tables(tables.drop_last(), changes, needs_reload);
        let name = tables.last().0;
        if needs_reload[tables.len() - 1] {
            front.push((name, lookup(changes, name) != Some(Change::Added)))
        } else {
            front
        }
    }
}

/// Lists the tables that have to be loaded for a configuration, given which of its tables need it.
pub fn tables_to_load<D: Domain>(
    config: &Config<D>,
    diff: &ConfigDiff,
    needs_reload: &Vec<bool>,
) -> (plan: Vec<TableLoad>)
    requires
        needs_reload@.len() == config.enrichment_tables@.len(),
    ensures
        load_views(plan@) == due_tables(
            config.enrichment_tables@,
            diff.enrichment_tables@,
            needs_reload@,
        ),
{
    let tables = &config.enrichment_tables;
    let ghost all = tables@;
    let mut plan: Vec<TableLoad> = Vec::new();
    assert(all.take(0).len() == 0);
    assert(load_views(plan@) =~= Seq::<(Seq<char>, bool)>::empty());
    let mut i: usize = 0;
    while i < tables.len()
        invariant
            i <= all.len(),
            all == tables@,
            needs_reload@.len() == all.len(),
            load_views(plan@) == due_tables(
                all.take(i as int),
                diff.enrichment_tables@,
                needs_reload@,
            ),
        decreases all.len() - i,
    {
        proof {
            assert(all.take(i + 1).drop_last() =~= all.take(i as int));
            assert(all.take(i + 1).last() == all[i as int]);
        }
        if needs_reload[i] {
            let name = tables.key_at(i);
            let ghost so_far = plan@;
            let load = TableLoad {
                name: name.clone(),
                keep_indexes: !diff.enrichment_tables.is_added(name.as_str()),
            };
            plan.push(load);
            assert(load_views(plan@) =~= load_views(so_far).push(load@));
        }
        i += 1;
    }
    assert(all.take(all.len() as int) =~= all);
    plan
}

/// The tables that were built and are taken over, under their names.
pub open spec fn loaded_tables<T>(
    plan: Seq<(Seq<char>, bool)>,
    reports: Seq<TableReport<T>>,
) -> Seq<(Seq<char>, T)>
    decreases reports.len(),
{
    if reports.len() == 0 {
        Seq::empty()
    } else {
        let front = loaded_tables(plan, reports.drop_last());
        match reports.last() {
            TableReport::Loaded(table) => front.push((plan[reports.len() - 1].0, table)),
            _ => front,
        }
    }
}

/// The pieces with what became of each table of a plan.
pub open spec fn with_tables<W: Wiring, T>(
    pieces: BuilderView<W>,
    plan: Seq<(Seq<char>, bool)>,
    reports: Seq<TableReport<T>>,
) -> BuilderView<W>
    decreases reports.len(),
{
    if reports.len() == 0 {
        pieces
    } else {
        with_table(
            with_tables(pieces, plan, reports.drop_last()),
            plan[reports.len() - 1].0,
            reports.last(),
        )
    }
}

/// What is said of a table that could not be built again.
pub open spec fn reload_error(name: Seq<char>, error: Seq<char>) -> Seq<char> {
    "Enrichment table \""@ + name + "\" reload failed: "@ + error
}

/// What is said of a table that was built again, but that an index could not be added to.
pub open spec fn index_error(name: Seq<char>, error: Seq<char>) -> Seq<char> {
    "Unable to add index to reloaded enrichment table \""@ + name + "\": "@ + error
}

/// Says that an index could not be added to a table, and why.
fn describe_index_error(name: &str, error: &str) -> (message: String)
    ensures
        message@ == index_error(name@, error@),
{
    "Unable to add index to reloaded enrichment table \"".to_string().concat(name).concat(
        "\": ",
    ).concat(error)
}

/// What is said of the tables of a plan that were built, but that an index could not be added to.
pub open spec fn index_errors<T>(
    plan: Seq<(Seq<char>, bool)>,
    reports: Seq<TableReport<T>>,
) -> Seq<Seq<char>>
    decreases reports.len(),
{
    if reports.len() == 0 {
        Seq::empty()
    } else {
        let front = index_errors(plan, reports.drop_last());
        match reports.last() {
            TableReport::IndexFailed(error) => front.push(
                index_error(plan[reports.len() - 1].0, error@),
            ),
            _ => front,
        }
    }
}

/// What is said of the tables of a plan that could not be built again, or that an index could not
/// be added to.
pub open spec fn reload_errors<T>(
    plan: Seq<(Seq<char>, bool)>,
    reports: Seq<TableReport<T>>,
) -> Seq<Seq<char>>
    decreases reports.len(),
{
    if reports.len() == 0 {
        Seq::empty()
    } else {
        let front = reload_errors(plan, reports.drop_last());
        match reports.last() {
            TableReport::Failed(error) => front.push(
                reload_error(plan[reports.len() - 1].0, error@),
            ),
            TableReport::IndexFailed(error) => front.push(
                index_error(plan[reports.len() - 1].0, error@),
            ),
            TableReport::Loaded(_) => front,
        }
    }
}

/// What became of a table, without the table.
pub open spec fn outcome<T>(report: TableReport<T>) -> TableReport<()> {
    match report {
        TableReport::Failed(error) => TableReport::Failed(error),
        TableReport::IndexFailed(error) => TableReport::IndexFailed(error),
        TableReport::Loaded(_) => TableReport::Loaded(()),
    }
}

/// What became of each of a list of tables, without the tables.
pub open spec fn outcomes<T>(reports: Seq<TableReport<T>>) -> Seq<TableReport<()>> {
    reports.map_values(|report: TableReport<T>| outcome(report))
}

/// Takes over the tables that were built, so that what is built next can use them, and hands back
/// what became of each. A table that an index could not be added to is left out, and the table that
/// it was to replace stays; what is said of such tables is handed out too, to be logged.
pub fn take_over_tables<T>(plan: &Vec<TableLoad>, reports: Vec<TableReport<T>>) -> (result: (
    ComponentMap<T>,
    Vec<TableReport<()>>,
    Vec<String>,
))
    requires
        plan@.len() == reports@.len(),
    ensures
        result.0@ == extended(Seq::empty(), loaded_tables(load_views(plan@), reports@)),
        result.1@ == outcomes(reports@),
        texts(result.2@) == index_errors(load_views(plan@), reports@),
{
    let ghost all = reports@;
    let ghost names = load_views(plan@);
    let mut tables: ComponentMap<T> = ComponentMap::new();
    let mut left: Vec<TableReport<()>> = Vec::new();
    let mut messages: Vec<String> = Vec::new();
    let count: usize = plan.len();
    assert(all.take(0).len() == 0);
    assert(texts(messages@) =~= Seq::<Seq<char>>::empty());
    let mut i: usize = 0;
    for report in it: reports
        invariant
            it.seq() == all,
            i == it.index(),
            count == plan@.len(),
            count == all.len(),
            names == load_views(plan@),
            tables@ == extended(Seq::empty(), loaded_tables(names, all.take(it.index()))),
            texts(messages@) == index_errors(names, all.take(it.index())),
            left@.len() == it.index(),
            forall|j: int| 0 <= j < it.index() ==> #[trigger] left@[j] == outcome(all[j]),
    {
        proof {
            let taken = all.take(i + 1);
            assert(taken.drop_last() =~= all.take(i as int));
            assert(taken.last() == report);
            assert(names[i as int].0 == plan@[i as int].name@);
            if report is Loaded {
                assert(loaded_tables(names, taken).drop_last() =~= loaded_tables(
                    names,
                    all.take(i as int),
                ));
            }
        }
        match report {
            TableReport::Failed(error) => {
                left.push(TableReport::Failed(error));
            },
            TableReport::IndexFailed(error) => {
                let ghost so_far = messages@;
                let message = describe_index_error(plan[i].name.as_str(), error.as_str());
                messages.push(message);
                assert(texts(messages@) =~= texts(so_far).push(message@));
                left.push(TableReport::IndexFailed(error));
            },
            TableReport::Loaded(table) => {
                tables.insert(plan[i].name.clone(), table);
                left.push(TableReport::Loaded(()));
            },
        }
        i += 1;
    }
    assert(all.take(all.len() as int) =~= all);
    assert(left@ =~= outcomes(all));
    (tables, left, messages)
}

impl<W: Wiring> Builder<'_, W> {
    /// Adds what became of each table that had to be loaded: one that could not be built is an
    /// error.
    pub fn load_enrichment_tables(&mut self, plan: &Vec<TableLoad>, reports: Vec<TableReport<()>>)
        requires
            plan@.len() == reports@.len(),
        ensures
            final(self)@ == with_tables(old(self)@, load_views(plan@), reports@),
            same_frame(*final(self), *old(self)),
    {
        let ghost all = reports@;
        let ghost names = load_views(plan@);
        let count: usize = plan.len();
        assert(all.take(0).len() == 0);
        let mut i: usize = 0;
        for report in it: reports
            invariant
                it.seq() == all,
                i == it.index(),
                count == plan@.len(),
                count == all.len(),
                names == load_views(plan@),
                self@ == with_tables(old(self)@, names, all.take(it.index())),
                same_frame(*self, *old(self)),
        {
            proof {
                let taken = all.take(i + 1);
                assert(taken.drop_last() =~= all.take(i as int));
                assert(taken.last() == report);
                assert(names[i as int].0 == plan@[i as int].name@);
            }
            match report {
                TableReport::Failed(error) => {
                    self.note(
                        describe_error(
                            "Enrichment Table",
                            plan[i].name.as_str(),
                            error.as_str(),
                        ),
                    );
                },
                _ => {},
            }
            i += 1;
        }
        assert(all.take(all.len() as int) =~= all);
    }
}

/// Taking over the tables that were built loses nothing of what is told of the others.
pub proof fn law_outcomes<W: Wiring, T>(
    pieces: BuilderView<W>,
    plan: Seq<(Seq<char>, bool)>,
    reports: Seq<TableReport<T>>,
)
    ensures
        with_tables(pieces, plan, outcomes(reports)) == with_tables(pieces, plan, reports),
    decreases reports.len(),
{
    if reports.len() > 0 {
        law_outcomes(pieces, plan, reports.drop_last());
        assert(outcomes(reports).drop_last() =~= outcomes(reports.drop_last()));
    }
}

/// Lists the tables that have to be loaded again while a configuration stays as it is: those that
/// need it, all of them with the indexes of the tables that they replace.
pub open spec fn due_reloads<V>(tables: Seq<(Seq<char>, V)>, needs_reload: Seq<bool>) -> Seq<
    (Seq<char>, bool),
>
    decreases tables.len(),
{
    if tables.len() == 0 {
        Seq::empty()
    } else {
        let front = due_reloads(tables.drop_last(), needs_reload);
        if needs_reload[tables.len() - 1] {
            front.push((tables.last().0, true))
        } else {
            front
        }
    }
}

/// Lists the tables that have to be loaded again while a configuration stays as it is.
pub fn tables_to_reload<D: Domain>(config: &Config<D>, needs_reload: &Vec<bool>) -> (plan: Vec<
    TableLoad,
>)
    requires
        needs_reload@.len() == config.enrichment_tables@.len(),
    ensures
        load_views(plan@) == due_reloads(config.enrichment_tables@, needs_reload@),
{
    let tables = &config.enrichment_tables;
    let ghost all = tables@;
    let mut plan: Vec<TableLoad> = Vec::new();
    assert(all.take(0).len() == 0);
    assert(load_views(plan@) =~= Seq::<(Seq<char>, bool)>::empty());
    let mut i: usize = 0;
    while i < tables.len()
        invariant
            i <= all.len(),
            all == tables@,
            needs_reload@.len() == all.len(),
            load_views(plan@) == due_reloads(all.take(i as int), needs_reload@),
        decreases all.len() - i,
    {
        proof {
            assert(all.take(i + 1).drop_last() =~= all.take(i as int));
            assert(all.take(i + 1).last() == all[i as int]);
        }
        if needs_reload[i] {
            let ghost so_far = plan@;
            let load = TableLoad { name: tables.key_at(i).clone(), keep_indexes: true };
            plan.push(load);
            assert(load_views(plan@) =~= load_views(so_far).push(load@));
        }
        i += 1;
    }
    assert(all.take(all.len() as int) =~= all);
    plan
}

/// Takes over the tables that were built again, and says which could not be built or which an index
/// could not be added to. A table that is not taken over stays as it was.
pub fn reload_enrichment_tables<T>(plan: &Vec<TableLoad>, reports: Vec<TableReport<T>>) -> (result:
    (ComponentMap<T>, Vec<String>))
    requires
        plan@.len() == reports@.len(),
    ensures
        result.0@ == extended(Seq::empty(), loaded_tables(load_views(plan@), reports@)),
        texts(result.1@) == reload_errors(load_views(plan@), reports@),
{
    let ghost all = reports@;
    let ghost names = load_views(plan@);
    let mut tables: ComponentMap<T> = ComponentMap::new();
    let mut messages: Vec<String> = Vec::new();
    let count: usize = plan.len();
    assert(all.take(0).len() == 0);
    assert(texts(messages@) =~= Seq::<Seq<char>>::empty());
    let mut i: usize = 0;
    for report in it: reports
        invariant
            it.seq() == all,
            i == it.index(),
            count == plan@.len(),
            count == all.len(),
            names == load_views(plan@),
            tables@ == extended(Seq::empty(), loaded_tables(names, all.take(it.index()))),
            texts(messages@) == reload_errors(names, all.take(it.index())),
    {
        proof {
            let taken = all.take(i + 1);
            assert(taken.drop_last() =~= all.take(i as int));
            assert(taken.last() == report);
            assert(names[i as int].0 == plan@[i as int].name@);
            if report is Loaded {
                assert(loaded_tables(names, taken).drop_last() =~= loaded_tables(
                    names,
                    all.take(i as int),
                ));
            }
        }
        let name = &plan[i].name;
        match report {
            TableReport::Failed(error) => {
                let ghost so_far = messages@;
                let message = "Enrichment table \"".to_string().concat(name.as_str()).concat(
                    "\" reload failed: ",
                ).concat(error.as_str());
                messages.push(message);
                assert(texts(messages@) =~= texts(so_far).push(message@));
            },
            TableReport::IndexFailed(error) => {
                let ghost so_far = messages@;
                let message = describe_index_error(name.as_str(), error.as_str());
                messages.push(message);
                assert(texts(messages@) =~= texts(so_far).push(message@));
            },
            TableReport::Loaded(table) => {
                tables.insert(name.clone(), table);
            },
        }
        i += 1;
    }
    assert(all.take(all.len() as int) =~= all);
    (tables, messages)
}

/// While a configuration stays as it is, each table of a plan is either taken over or told to be
/// wrong.
pub proof fn law_reloads_are_told<T>(plan: Seq<(Seq<char>, bool)>, reports: Seq<TableReport<T>>)
    ensures
        loaded_tables(plan, reports).len() + reload_errors(plan, reports).len() == reports.len(),
    decreases reports.len(),
{
    if reports.len() > 0 {
        law_reloads_are_told(plan, reports.drop_last());
    }
}

/// Loading tables changes nothing but what went wrong, and something went wrong exactly where a
/// table could not be built: an index that could not be added is no error.
pub proof fn law_table_errors<W: Wiring, T>(
    pieces: BuilderView<W>,
    plan: Seq<(Seq<char>, bool)>,
    reports: Seq<TableReport<T>>,
)
    ensures
        with_tables(pieces, plan, reports).errors.len() >= pieces.errors.len(),
        with_tables(pieces, plan, reports) == (BuilderView {
            errors: with_tables(pieces, plan, reports).errors,
            ..pieces
        }),
        (with_tables(pieces, plan, reports).errors == pieces.errors) <==> (forall|i: int|
            0 <= i < reports.len() ==> !(#[trigger] reports[i] is Failed)),
        with_tables(pieces, plan, reports).errors.len() == pieces.errors.len() ==> with_tables(
            pieces,
            plan,
            reports,
        ).errors == pieces.errors,
    decreases reports.len(),
{
    if reports.len() > 0 {
        let front = reports.drop_last();
        law_table_errors(pieces, plan, front);
        assert forall|i: int| 0 <= i < front.len() implies front[i] == reports[i] by {}
        if with_tables(pieces, plan, reports).errors == pieces.errors {
            assert forall|i: int| 0 <= i < reports.len() implies !(
            #[trigger] reports[i] is Failed) by {
                if i < front.len() {
                    assert(!(front[i] is Failed));
                }
            }
        }
        if forall|i: int| 0 <= i < reports.len() ==> !(#[trigger] reports[i] is Failed) {
            assert forall|i: int| 0 <= i < front.len() implies !(#[trigger] front[i] is Failed) by {
                assert(!(reports[i] is Failed));
            }
            assert(!(reports[reports.len() - 1] is Failed));
        }
    }
}

/// The positions, in order, of all that is wanted among the first so many.
pub open spec fn selects(at: Seq<int>, wanted: Seq<bool>, count: int) -> bool {
    &&& forall|p: int| 0 <= p < at.len() ==> 0 <= #[trigger] at[p] < count && wanted[at[p]]
    &&& forall|p: int, q: int| 0 <= p < q < at.len() ==> #[trigger] at[p] < #[trigger] at[q]
    &&& forall|i: int| 0 <= i < count && #[trigger] wanted[i] ==> at.contains(i)
}

proof fn lemma_selects(at: Seq<int>, wanted: Seq<bool>, count: int)
    requires
        count >= 0,
        selects(at, wanted, count),
    ensures
        selects(
            if wanted[count] {
                at.push(count)
            } else {
                at
            },
            wanted,
            count + 1,
        ),
{
    let more = if wanted[count] {
        at.push(count)
    } else {
        at
    };
    assert forall|i: int| 0 <= i < count + 1 && #[trigger] wanted[i] implies more.contains(i) by {
        if i < count {
            let p = at.index_of(i);
            assert(more[p] == i);
        } else {
            assert(more[at.len() as int] == count);
        }
    }
}

proof fn lemma_due_tables<V>(
    tables: Seq<(Seq<char>, V)>,
    changes: Seq<(Seq<char>, Change)>,
    needs_reload: Seq<bool>,
) -> (at: Seq<int>)
    ensures
        selects(at, needs_reload, tables.len() as int),
        at.len() == due_tables(tables, changes, needs_reload).len(),
        at.len() == due_reloads(tables, needs_reload).len(),
        forall|p: int|
            0 <= p < at.len() ==> #[trigger] due_tables(tables, changes, needs_reload)[p] == (
                tables[at[p]].0,
                lookup(changes, tables[at[p]].0) != Some(Change::Added),
            ),
        forall|p: int|
            0 <= p < at.len() ==> #[trigger] due_reloads(tables, needs_reload)[p] == (
                tables[at[p]].0,
                true,
            ),
    decreases tables.len(),
{
    if tables.len() == 0 {
        Seq::empty()
    } else {
        let front = tables.drop_last();
        let before = lemma_due_tables(front, changes, needs_reload);
        let last = tables.len() - 1;
        lemma_selects(before, needs_reload, last);
        assert(tables[last] == tables.last());
        assert forall|p: int| 0 <= p < before.len() implies front[#[trigger] before[p]]
            == tables[before[p]] by {}
        if needs_reload[last] {
            before.push(last)
        } else {
            before
        }
    }
}

/// The tables that are loaded for a configuration are those that need it, in their order. Each
/// keeps the indexes of the table that it replaces, but for one that was added.
pub proof fn law_tables_to_load<D: Domain>(
    config: Config<D>,
    diff: ConfigDiff,
    needs_reload: Vec<bool>,
    plan: Vec<TableLoad>,
)
    requires
        call_ensures(tables_to_load::<D>, (&config, &diff, &needs_reload), plan),
    ensures
        exists|at: Seq<int>|
            {
                &&& #[trigger] selects(
                    at,
                    needs_reload@,
                    config.enrichment_tables@.len() as int,
                )
                &&& plan@.len() == at.len()
                &&& forall|p: int|
                    0 <= p < plan@.len() ==> {
                        let name = config.enrichment_tables@[at[p]].0;
                        &&& (#[trigger] plan@[p]).name@ == name
                        &&& plan@[p].keep_indexes <==> lookup(diff.enrichment_tables@, name)
                            != Some(Change::Added)
                    }
            },
{
    let tables = config.enrichment_tables@;
    let at = lemma_due_tables(tables, diff.enrichment_tables@, needs_reload@);
    assert(load_views(plan@).len() == plan@.len());
    assert forall|p: int| 0 <= p < plan@.len() implies ({
        let name = tables[at[p]].0;
        &&& (#[trigger] plan@[p]).name@ == name
        &&& plan@[p].keep_indexes <==> lookup(diff.enrichment_tables@, name) != Some(Change::Added)
    }) by {
        assert(load_views(plan@)[p] == plan@[p]@);
    }
}

/// The tables that are loaded again are those that need it, in their order, and each keeps the
/// indexes of the table that it replaces.
pub proof fn law_tables_to_reload<D: Domain>(
    config: Config<D>,
    needs_reload: Vec<bool>,
    plan: Vec<TableLoad>,
)
    requires
        call_ensures(tables_to_reload::<D>, (&config, &needs_reload), plan),
    ensures
        exists|at: Seq<int>|
            {
                &&& #[trigger] selects(
                    at,
                    needs_reload@,
                    config.enrichment_tables@.len() as int,
                )
                &&& plan@.len() == at.len()
                &&& forall|p: int|
                    0 <= p < plan@.len() ==> (#[trigger] plan@[p]).name@
                        == config.enrichment_tables@[at[p]].0 && plan@[p].keep_indexes
            },
{
    let tables = config.enrichment_tables@;
    let at = lemma_due_tables(tables, Seq::empty(), needs_reload@);
    assert(load_views(plan@).len() == plan@.len());
    assert forall|p: int| 0 <= p < plan@.len() implies (#[trigger] plan@[p]).name@
        == tables[at[p]].0 && plan@[p].keep_indexes by {
        assert(load_views(plan@)[p] == plan@[p]@);
    }
}

/// The table at a position of a plan was built, under a name.
pub open spec fn is_built_as<T>(
    plan: Seq<TableLoad>,
    reports: Seq<TableReport<T>>,
    i: int,
    name: Seq<char>,
) -> bool {
    0 <= i < reports.len() && reports[i] is Loaded && plan[i].name@ == name
}

/// What is said of the table at a position of a plan that an index could not be added to.
pub open spec fn tells_of_index<T>(
    plan: Seq<TableLoad>,
    reports: Seq<TableReport<T>>,
    i: int,
    message: Seq<char>,
) -> bool {
    &&& 0 <= i < reports.len()
    &&& reports[i] matches TableReport::IndexFailed(error) && message
        == "Unable to add index to reloaded enrichment table \""@ + plan[i].name@ + "\": "@ + error@
}

/// What is said of the table at a position of a plan that could not be built again.
pub open spec fn tells_of_reload<T>(
    plan: Seq<TableLoad>,
    reports: Seq<TableReport<T>>,
    i: int,
    message: Seq<char>,
) -> bool {
    &&& 0 <= i < reports.len()
    &&& reports[i] matches TableReport::Failed(error) && message == "Enrichment table \""@
        + plan[i].name@ + "\" reload failed: "@ + error@
}

proof fn lemma_loaded_tables<T>(
    plan: Seq<TableLoad>,
    reports: Seq<TableReport<T>>,
    name: Seq<char>,
)
    requires
        reports.len() <= plan.len(),
    ensures
        distinct_keys(extended(Seq::empty(), loaded_tables(load_views(plan), reports))),
        forall|i: int|
            #[trigger] is_built_as(plan, reports, i, name) && (forall|j: int|
                i < j < reports.len() ==> !#[trigger] is_built_as(plan, reports, j, name))
                ==> lookup(
                extended(Seq::empty(), loaded_tables(load_views(plan), reports)),
                name,
            ) == Some(reports[i]->Loaded_0),
        (forall|i: int| !#[trigger] is_built_as(plan, reports, i, name)) ==> lookup(
            extended(Seq::empty(), loaded_tables(load_views(plan), reports)),
            name,
        ) is None,
    decreases reports.len(),
{
    let names = load_views(plan);
    let none = Seq::<(Seq<char>, T)>::empty();
    if reports.len() > 0 {
        let front = reports.drop_last();
        let last = reports.len() - 1;
        lemma_loaded_tables(plan, front, name);
        assert(reports[last] == reports.last());
        assert forall|i: int| i != last implies #[trigger] is_built_as(plan, reports, i, name)
            == is_built_as(plan, front, i, name) by {}
        let here = is_built_as(plan, reports, last, name);
        assert(names[last].0 == plan[last].name@);
        let so_far = extended(none, loaded_tables(names, front));
        if let TableReport::Loaded(table) = reports.last() {
            let all = loaded_tables(names, reports);
            assert(all.drop_last() =~= loaded_tables(names, front));
            assert(all.last() == (names[last].0, table));
            lemma_upsert_lookup(so_far, names[last].0, table, name);
            lemma_upsert_distinct(so_far, names[last].0, table);
        }
        assert forall|i: int|
            #[trigger] is_built_as(plan, reports, i, name) && (forall|j: int|
                i < j < reports.len() ==> !#[trigger] is_built_as(plan, reports, j, name))
                implies lookup(extended(none, loaded_tables(names, reports)), name) == Some(
            reports[i]->Loaded_0,
        ) by {
            if i < last {
                assert(is_built_as(plan, front, i, name));
                assert forall|j: int| i < j < front.len() implies !#[trigger] is_built_as(
                    plan,
                    front,
                    j,
                    name,
                ) by {
                    assert(!is_built_as(plan, reports, j, name));
                }
                assert(!here);
            }
        }
        if forall|i: int| !#[trigger] is_built_as(plan, reports, i, name) {
            assert forall|i: int| !#[trigger] is_built_as(plan, front, i, name) by {
                assert(!is_built_as(plan, reports, i, name));
            }
        }
    }
}

proof fn lemma_pushed<T>(front: Seq<T>, item: T, wanted: T)
    ensures
        front.push(item).contains(wanted) <==> front.contains(wanted) || item == wanted,
{
    let all = front.push(item);
    if front.contains(wanted) {
        assert(all[front.index_of(wanted)] == wanted);
    }
    if item == wanted {
        assert(all[front.len() as int] == wanted);
    }
    if all.contains(wanted) && item != wanted {
        assert(front[all.index_of(wanted)] == wanted);
    }
}

proof fn lemma_index_errors<T>(
    plan: Seq<TableLoad>,
    reports: Seq<TableReport<T>>,
    message: Seq<char>,
)
    requires
        reports.len() <= plan.len(),
    ensures
        index_errors(load_views(plan), reports).contains(message) <==> exists|i: int| #[trigger]
            tells_of_index(plan, reports, i, message),
        reload_errors(load_views(plan), reports).contains(message) <==> exists|i: int|
            #![trigger tells_of_index(plan, reports, i, message)]
            #![trigger tells_of_reload(plan, reports, i, message)]
            tells_of_index(plan, reports, i, message) || tells_of_reload(plan, reports, i, message),
    decreases reports.len(),
{
    if reports.len() > 0 {
        let front = reports.drop_last();
        let last = reports.len() - 1;
        let names = load_views(plan);
        lemma_index_errors(plan, front, message);
        assert(reports[last] == reports.last());
        assert(names[last].0 == plan[last].name@);
        let of_index = tells_of_index(plan, reports, last, message);
        let of_reload = tells_of_reload(plan, reports, last, message);
        assert forall|i: int| i != last implies #[trigger] tells_of_index(plan, reports, i, message)
            == tells_of_index(plan, front, i, message) by {}
        assert forall|i: int| i != last implies #[trigger] tells_of_reload(
            plan,
            reports,
            i,
            message,
        ) == tells_of_reload(plan, front, i, message) by {}
        match reports.last() {
            TableReport::IndexFailed(error) => {
                let own = index_error(names[last].0, error@);
                assert(of_index == (message == own));
                lemma_pushed(index_errors(names, front), own, message);
                lemma_pushed(reload_errors(names, front), own, message);
            },
            TableReport::Failed(error) => {
                let own = reload_error(names[last].0, error@);
                assert(of_reload == (message == own));
                lemma_pushed(reload_errors(names, front), own, message);
            },
            TableReport::Loaded(_) => {},
        }
        if exists|i: int| #[trigger] tells_of_index(plan, reports, i, message) {
            let i = choose|i: int| #[trigger] tells_of_index(plan, reports, i, message);
            if i != last {
                assert(tells_of_index(plan, front, i, message));
            }
        }
        if exists|i: int| #[trigger] tells_of_reload(plan, reports, i, message) {
            let i = choose|i: int| #[trigger] tells_of_reload(plan, reports, i, message);
            if i != last {
                assert(tells_of_reload(plan, front, i, message));
            }
        }
        if exists|i: int| #[trigger] tells_of_index(plan, front, i, message) {
            let i = choose|i: int| #[trigger] tells_of_index(plan, front, i, message);
            assert(tells_of_index(plan, reports, i, message));
        }
        if exists|i: int| #[trigger] tells_of_reload(plan, front, i, message) {
            let i = choose|i: int| #[trigger] tells_of_reload(plan, front, i, message);
            assert(tells_of_reload(plan, reports, i, message));
        }
    }
}

/// A table is taken over exactly where it was built, with its indexes; of tables of one name, the
/// last. What became of each is handed back; and of each that an index could not be added to, it is
/// said so, and of no other table anything.
pub proof fn law_tables_are_taken_over<T>(
    plan: Vec<TableLoad>,
    reports: Vec<TableReport<T>>,
    tables: ComponentMap<T>,
    left: Vec<TableReport<()>>,
    messages: Vec<String>,
    name: Seq<char>,
    message: Seq<char>,
)
    requires
        plan@.len() == reports@.len(),
        call_ensures(take_over_tables::<T>, (&plan, reports), (tables, left, messages)),
    ensures
        forall|i: int|
            #[trigger] is_built_as(plan@, reports@, i, name) && (forall|j: int|
                i < j < reports@.len() ==> !#[trigger] is_built_as(plan@, reports@, j, name))
                ==> lookup(tables@, name) == Some(reports@[i]->Loaded_0),
        (forall|i: int| !#[trigger] is_built_as(plan@, reports@, i, name)) ==> lookup(
            tables@,
            name,
        ) is None,
        left@.len() == reports@.len(),
        forall|i: int|
            0 <= i < left@.len() ==> match reports@[i] {
                TableReport::Failed(error) => #[trigger] left@[i] == TableReport::<()>::Failed(
                    error,
                ),
                TableReport::IndexFailed(error) => left@[i] == TableReport::<()>::IndexFailed(
                    error,
                ),
                TableReport::Loaded(_) => left@[i] == TableReport::<()>::Loaded(()),
            },
        texts(messages@).contains(message) <==> exists|i: int| #[trigger]
            tells_of_index(plan@, reports@, i, message),
{
    lemma_loaded_tables(plan@, reports@, name);
    lemma_index_errors(plan@, reports@, message);
}

/// A table is loaded again exactly where it was built, with its indexes; of tables of one name, the
/// last. Of each that could not be built, and of each that an index could not be added to, it is
/// said so, and of no other table anything.
pub proof fn law_tables_are_reloaded<T>(
    plan: Vec<TableLoad>,
    reports: Vec<TableReport<T>>,
    tables: ComponentMap<T>,
    messages: Vec<String>,
    name: Seq<char>,
    message: Seq<char>,
)
    requires
        plan@.len() == reports@.len(),
        call_ensures(reload_enrichment_tables::<T>, (&plan, reports), (tables, messages)),
    ensures
        forall|i: int|
            #[trigger] is_built_as(plan@, reports@, i, name) && (forall|j: int|
                i < j < reports@.len() ==> !#[trigger] is_built_as(plan@, reports@, j, name))
                ==> lookup(tables@, name) == Some(reports@[i]->Loaded_0),
        (forall|i: int| !#[trigger] is_built_as(plan@, reports@, i, name)) ==> lookup(
            tables@,
            name,
        ) is None,
        texts(messages@).contains(message) <==> exists|i: int|
            #![trigger tells_of_index(plan@, reports@, i, message)]
            #![trigger tells_of_reload(plan@, reports@, i, message)]
            tells_of_index(plan@, reports@, i, message) || tells_of_reload(
                plan@,
                reports@,
                i,
                message,
            ),
{
    lemma_loaded_tables(plan@, reports@, name);
    lemma_index_errors(plan@, reports@, message);
}

} // verus!

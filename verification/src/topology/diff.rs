//! What a new configuration changes.

use vstd::prelude::*;

use crate::config::compiler::{
    lend, lend_sinks, lent, list_table_sinks, list_table_sources, table_sinks, table_sources,
    SinkRef,
};
use crate::config::{
    viewed, Config, ConfigView, Domain, OutputId, OutputIdView, SinkView, SourceOuter,
    TransformOuter,
};
use crate::ordered::{distinct_keys, lookup, pairs, ComponentMap};

verus! {

/// What becomes of a component that is not kept as it is.
pub enum Change {
    Added,
    Changed,
    Removed,
}

/// The components of one kind that are not kept as they are.
pub struct Difference {
    pub changes: ComponentMap<Change>,
}

impl View for Difference {
    type V = Seq<(Seq<char>, Change)>;

    open spec fn view(&self) -> Seq<(Seq<char>, Change)> {
        self.changes@
    }
}

/// The component has to be built: it is added, or changed.
pub open spec fn is_new(changes: Seq<(Seq<char>, Change)>, key: Seq<char>) -> bool {
    match lookup(changes, key) {
        Some(Change::Added) => true,
        Some(Change::Changed) => true,
        _ => false,
    }
}

impl Difference {
    /// Tells whether a component has to be built.
    pub fn contains_new(&self, key: &str) -> (new: bool)
        ensures
            new == is_new(self@, key@),
    {
        match self.changes.get(key) {
            Some(Change::Added) => true,
            Some(Change::Changed) => true,
            _ => false,
        }
    }

    /// Tells whether a component was not there before.
    pub fn is_added(&self, key: &str) -> (added: bool)
        ensures
            added == (lookup(self@, key@) == Some(Change::Added)),
    {
        match self.changes.get(key) {
            Some(Change::Added) => true,
            _ => false,
        }
    }
}

/// What a new configuration changes, by the kinds of components.
pub struct ConfigDiff {
    pub sources: Difference,
    pub transforms: Difference,
    pub sinks: Difference,
    pub enrichment_tables: Difference,
}

/// The entries whose components have to be built, in order.
pub open spec fn only_new<V>(
    entries: Seq<(Seq<char>, V)>,
    changes: Seq<(Seq<char>, Change)>,
) -> Seq<(Seq<char>, V)>
    decreases entries.len(),
{
    if entries.len() == 0 {
        Seq::empty()
    } else {
        let front = only_new(entries.drop_last(), changes);
        if is_new(changes, entries.last().0) {
            front.push(entries.last())
        } else {
            front
        }
    }
}

/// The sources that have to be built: those written down, then those of enrichment tables.
pub open spec fn new_source_entries<D: Domain>(config: ConfigView<D>, diff: ConfigDiff) -> Seq<
    (Seq<char>, SourceOuter<D>),
> {
    only_new(config.sources, diff.sources@) + only_new(
        table_sources(config.enrichment_tables),
        diff.enrichment_tables@,
    )
}

/// The sinks that have to be built: those written down, then those of enrichment tables.
pub open spec fn new_sink_entries<D: Domain>(config: ConfigView<D>, diff: ConfigDiff) -> Seq<
    (Seq<char>, SinkView<OutputIdView, D>),
> {
    only_new(config.sinks, diff.sinks@) + only_new(
        table_sinks(config.enrichment_tables),
        diff.enrichment_tables@,
    )
}

/// Keeps the entries of a list whose components have to be built.
fn keep_new<T>(list: Vec<(String, T)>, difference: &Difference) -> (kept: Vec<(String, T)>)
    ensures
        pairs(kept@) == only_new(pairs(list@), difference@),
{
    let ghost given = list@;
    let ghost all = pairs(given);
    let mut kept: Vec<(String, T)> = Vec::new();
    assert(all.take(0).len() == 0);
    assert(pairs(kept@) =~= Seq::<(Seq<char>, T)>::empty());
    for entry in it: list
        invariant
            it.seq() == given,
            all == pairs(given),
            pairs(kept@) == only_new(all.take(it.index()), difference@),
    {
        proof {
            let i = it.index() as int;
            assert(all.take(i + 1).drop_last() =~= all.take(i));
            assert(all.take(i + 1).last() == (entry.0@, entry.1));
        }
        if difference.contains_new(entry.0.as_str()) {
            let ghost so_far = kept@;
            kept.push(entry);
            assert(pairs(kept@) =~= pairs(so_far).push((entry.0@, entry.1)));
        }
    }
    assert(all.take(all.len() as int) =~= all);
    kept
}

/// Leaving out what is kept commutes with lending out.
proof fn lemma_only_new_lent<V>(
    entries: Seq<(Seq<char>, &V)>,
    changes: Seq<(Seq<char>, Change)>,
)
    ensures
        lent(only_new(entries, changes)) == only_new(lent(entries), changes),
    decreases entries.len(),
{
    if entries.len() > 0 {
        let front = entries.drop_last();
        lemma_only_new_lent(front, changes);
        assert(lent(entries).drop_last() =~= lent(front));
        assert(lent(only_new(entries, changes)) =~= only_new(lent(entries), changes));
    } else {
        assert(lent(only_new(entries, changes)) =~= only_new(lent(entries), changes));
    }
}

/// Leaving out what is kept commutes with looking at what each value stands for.
pub proof fn lemma_only_new_viewed<V: View>(
    entries: Seq<(Seq<char>, V)>,
    changes: Seq<(Seq<char>, Change)>,
)
    ensures
        viewed(only_new(entries, changes)) == only_new(viewed(entries), changes),
    decreases entries.len(),
{
    if entries.len() > 0 {
        let front = entries.drop_last();
        lemma_only_new_viewed(front, changes);
        assert(viewed(entries).drop_last() =~= viewed(front));
        assert(viewed(only_new(entries, changes)) =~= only_new(viewed(entries), changes));
    } else {
        assert(viewed(only_new(entries, changes)) =~= only_new(viewed(entries), changes));
    }
}

/// What has to be built is part of what there is, nothing that has to be built is left out, and
/// distinct names stay distinct.
pub proof fn law_only_new<V>(entries: Seq<(Seq<char>, V)>, changes: Seq<(Seq<char>, Change)>)
    ensures
        forall|i: int|
            0 <= i < only_new(entries, changes).len() ==> is_new(
                changes,
                (#[trigger] only_new(entries, changes)[i]).0,
            ) && entries.contains(only_new(entries, changes)[i]),
        forall|i: int|
            0 <= i < entries.len() && is_new(changes, (#[trigger] entries[i]).0) ==> only_new(
                entries,
                changes,
            ).contains(entries[i]),
        distinct_keys(entries) ==> distinct_keys(only_new(entries, changes)),
    decreases entries.len(),
{
    if entries.len() > 0 {
        let front = entries.drop_last();
        let kept = only_new(front, changes);
        let all = only_new(entries, changes);
        law_only_new(front, changes);
        assert forall|i: int| 0 <= i < all.len() implies is_new(changes, (#[trigger] all[i]).0)
            && entries.contains(all[i]) by {
            if i < kept.len() {
                assert(all[i] == kept[i]);
                let k = choose|k: int| 0 <= k < front.len() && front[k] == kept[i];
                assert(entries[k] == all[i]);
            } else {
                assert(entries[entries.len() - 1] == all[i]);
            }
        }
        assert forall|i: int| 0 <= i < entries.len() && is_new(
            changes,
            (#[trigger] entries[i]).0,
        ) implies all.contains(entries[i]) by {
            if i < front.len() {
                assert(front[i] == entries[i]);
                let k = choose|k: int| 0 <= k < kept.len() && kept[k] == entries[i];
                assert(all[k] == entries[i]);
            } else {
                assert(all[all.len() - 1] == entries[i]);
            }
        }
        if distinct_keys(entries) {
            assert forall|i: int, j: int| 0 <= i < j < front.len() implies (
            #[trigger] front[i]).0 != (#[trigger] front[j]).0 by {
                assert(entries[i].0 != entries[j].0);
            }
            assert forall|i: int, j: int| 0 <= i < j < all.len() implies (#[trigger] all[i]).0 != (
            #[trigger] all[j]).0 by {
                if j < kept.len() {
                    assert(kept[i].0 != kept[j].0);
                } else {
                    assert(all[i] == kept[i]);
                    let k = choose|k: int| 0 <= k < front.len() && front[k] == kept[i];
                    assert(entries[k].0 != entries[entries.len() - 1].0);
                }
            }
        }
    }
}

/// A list can be sorted out part by part: an entry that is added or changed stays, and any other is
/// left out.
pub proof fn law_only_new_by_parts<V>(
    head: Seq<(Seq<char>, V)>,
    tail: Seq<(Seq<char>, V)>,
    entry: (Seq<char>, V),
    changes: Seq<(Seq<char>, Change)>,
)
    ensures
        only_new(head + tail, changes) == only_new(head, changes) + only_new(tail, changes),
        lookup(changes, entry.0) == Some(Change::Added) || lookup(changes, entry.0) == Some(
            Change::Changed,
        ) ==> only_new(seq![entry], changes) == seq![entry],
        lookup(changes, entry.0) is None || lookup(changes, entry.0) == Some(Change::Removed)
            ==> only_new(seq![entry], changes).len() == 0,
    decreases tail.len(),
{
    assert(seq![entry].drop_last() =~= Seq::empty());
    assert(seq![entry].last() == entry);
    reveal_with_fuel(only_new, 2);
    if is_new(changes, entry.0) {
        assert(only_new(seq![entry], changes) =~= seq![entry]);
    }
    if tail.len() > 0 {
        law_only_new_by_parts(head, tail.drop_last(), entry, changes);
        assert((head + tail).drop_last() =~= head + tail.drop_last());
        assert((head + tail).last() == tail.last());
    } else {
        assert(head + tail =~= head);
    }
    assert(only_new(head + tail, changes) =~= only_new(head, changes) + only_new(tail, changes));
}

/// Lists the sources that have to be built.
pub fn new_sources<'a, D: Domain>(config: &'a Config<D>, diff: &ConfigDiff) -> (sources: Vec<
    (String, &'a SourceOuter<D>),
>)
    ensures
        lent(pairs(sources@)) == new_source_entries(config@, *diff),
{
    let own = lend(&config.sources);
    let of_tables = list_table_sources(&config.enrichment_tables);
    proof {
        lemma_only_new_lent(pairs(own@), diff.sources@);
        lemma_only_new_lent(pairs(of_tables@), diff.enrichment_tables@);
    }
    let mut sources = keep_new(own, &diff.sources);
    let mut rest = keep_new(of_tables, &diff.enrichment_tables);
    let ghost first = sources@;
    let ghost second = rest@;
    sources.append(&mut rest);
    assert(lent(pairs(sources@)) =~= lent(pairs(first)) + lent(pairs(second)));
    sources
}

/// Lists the transforms that have to be built. Their names are distinct.
pub fn new_transforms<'a, D: Domain>(config: &'a Config<D>, diff: &ConfigDiff) -> (transforms: Vec<
    (String, &'a TransformOuter<OutputId, D>),
>)
    ensures
        lent(pairs(transforms@)) == only_new(config.transforms@, diff.transforms@),
        distinct_keys(pairs(transforms@)),
{
    let own = lend(&config.transforms);
    proof {
        lemma_only_new_lent(pairs(own@), diff.transforms@);
        law_only_new(pairs(own@), diff.transforms@);
    }
    keep_new(own, &diff.transforms)
}

/// Lists the sinks that have to be built.
pub fn new_sinks<'a, D: Domain>(config: &'a Config<D>, diff: &ConfigDiff) -> (sinks: Vec<
    (String, SinkRef<'a, OutputId, D>),
>)
    ensures
        viewed(pairs(sinks@)) == new_sink_entries(config@, *diff),
{
    let own = lend_sinks(&config.sinks);
    let of_tables = list_table_sinks(&config.enrichment_tables);
    proof {
        lemma_only_new_viewed(pairs(own@), diff.sinks@);
        lemma_only_new_viewed(pairs(of_tables@), diff.enrichment_tables@);
    }
    let mut sinks = keep_new(own, &diff.sinks);
    let mut rest = keep_new(of_tables, &diff.enrichment_tables);
    let ghost first = sinks@;
    let ghost second = rest@;
    sinks.append(&mut rest);
    assert(viewed(pairs(sinks@)) =~= viewed(pairs(first)) + viewed(pairs(second)));
    sinks
}

/// A component has to be built exactly where it is added or changed: not where it is removed, and
/// not where it is kept as it is.
pub proof fn law_has_to_be_built(difference: Difference, key: &str, new: bool, added: bool)
    requires
        call_ensures(Difference::contains_new, (&difference, key), new),
        call_ensures(Difference::is_added, (&difference, key), added),
    ensures
        match lookup(difference.changes@, key@) {
            Some(Change::Added) => new && added,
            Some(Change::Changed) => new && !added,
            Some(Change::Removed) => !new && !added,
            None => !new && !added,
        },
{
}

} // verus!

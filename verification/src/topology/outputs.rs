//! The outputs of a topology, by component and port.

use vstd::prelude::*;

use crate::config::{viewed, OutputId, OutputIdView};
use crate::keyed::{texted, KeyedMap};
use crate::ordered::{
    distinct_keys, has_key, lemma_extended_fresh, lemma_slot_mapped, lemma_upsert_distinct,
    lemma_upsert_lookup, lookup, pairs, slot_of, upsert, ComponentMap,
};
use crate::text::opt_text;

verus! {

/// The outputs of a component, by port.
pub type PortMap<C> = KeyedMap<Option<String>, C>;

/// The ports that a component has so far.
pub open spec fn ports_of<C>(
    grouped: Seq<(Seq<char>, Seq<(Option<Seq<char>>, C)>)>,
    component: Seq<char>,
) -> Seq<(Option<Seq<char>>, C)> {
    match lookup(grouped, component) {
        Some(ports) => ports,
        None => Seq::empty(),
    }
}

/// Outputs grouped by component: each is filed under its port, among the outputs of its component.
pub open spec fn finalized<C>(outputs: Seq<(OutputIdView, C)>) -> Seq<
    (Seq<char>, Seq<(Option<Seq<char>>, C)>),
>
    decreases outputs.len(),
{
    if outputs.len() == 0 {
        Seq::empty()
    } else {
        let front = finalized(outputs.drop_last());
        let (id, output) = outputs.last();
        upsert(front, id.component, upsert(ports_of(front, id.component), id.port, output))
    }
}

/// What stands behind the name of an output, where outputs are grouped by component.
pub open spec fn grouped_lookup<C>(
    grouped: Seq<(Seq<char>, Seq<(Option<Seq<char>>, C)>)>,
    id: OutputIdView,
) -> Option<C> {
    lookup(ports_of(grouped, id.component), id.port)
}

/// Groups outputs by component.
pub fn finalize_outputs<C>(outputs: KeyedMap<OutputId, C>) -> (grouped: ComponentMap<PortMap<C>>)
    ensures
        viewed(grouped@) == finalized(outputs@),
{
    let entries = outputs.into_entries();
    let ghost given = entries@;
    let ghost all = texted(given);
    let mut index: ComponentMap<usize> = ComponentMap::new();
    let mut groups: Vec<(String, PortMap<C>)> = Vec::new();
    assert(all.take(0).len() == 0);
    assert(viewed(pairs(groups@)) =~= finalized(all.take(0)));
    for entry in it: entries
        invariant
            it.seq() == given,
            all == texted(given),
            viewed(pairs(groups@)) == finalized(all.take(it.index())),
            distinct_keys(pairs(groups@)),
            index@.len() == groups@.len(),
            forall|j: int|
                0 <= j < groups@.len() ==> (#[trigger] index@[j]) == (groups@[j].0@, j as usize),
    {
        let ghost front = viewed(pairs(groups@));
        let ghost listed = pairs(groups@);
        let ghost held = groups@;
        let OutputId { component, port } = entry.0;
        proof {
            let i = it.index() as int;
            assert(all.take(i + 1).drop_last() =~= all.take(i));
            assert(all.take(i + 1).last() == (entry.0@, entry.1));
            lemma_slot_mapped(listed, front, component@);
            lemma_slot_mapped(listed, index@, component@);
        }
        let next: usize = groups.len();
        let slot: usize = match index.get(component.as_str()) {
            Some(slot) => *slot,
            None => {
                index.insert(component.clone(), next);
                groups.push((component.clone(), KeyedMap::new()));
                next
            },
        };
        let ghost opened = groups@;
        proof {
            if has_key(listed, component@) {
                let k = slot_of(listed, component@);
                assert(listed[k].0 == component@);
                assert(opened == held);
                assert(index@[k] == (held[k].0@, k as usize));
                assert(slot == k);
                assert(ports_of(front, component@) == opened[slot as int].1@);
            } else {
                assert(opened[slot as int].1@ =~= ports_of(front, component@));
                lemma_upsert_distinct(listed, component@, opened[slot as int].1);
                assert(pairs(opened) =~= upsert(listed, component@, opened[slot as int].1));
            }
        }
        let group = &mut groups[slot];
        group.1.insert(port, entry.1);
        proof {
            assert(groups@.len() == opened.len());
            assert forall|j: int| 0 <= j < groups@.len() implies (#[trigger] groups@[j]).0
                == opened[j].0 by {}
            assert(viewed(pairs(groups@)) =~= upsert(
                front,
                component@,
                upsert(ports_of(front, component@), opt_text(port), entry.1),
            ));
            assert forall|a: int, b: int| 0 <= a < b < groups@.len() implies (
            #[trigger] pairs(groups@)[a]).0 != (#[trigger] pairs(groups@)[b]).0 by {
                assert(pairs(opened)[a].0 != pairs(opened)[b].0);
            }
        }
    }
    proof {
        assert(all.take(all.len() as int) =~= all);
        lemma_extended_fresh(pairs(groups@));
    }
    ComponentMap::from_entries(groups)
}

/// Grouping loses no output, makes up none and mixes up none: behind each name stands what stood
/// behind it before. Each component is listed once.
pub proof fn law_finalize_outputs<C>(outputs: Seq<(OutputIdView, C)>, id: OutputIdView)
    requires
        distinct_keys(outputs),
    ensures
        grouped_lookup(finalized(outputs), id) == lookup(outputs, id),
        distinct_keys(finalized(outputs)),
{
    lemma_finalized(outputs, id);
}

/// The components, and the ports of each, have distinct names.
spec fn well_grouped<C>(grouped: Seq<(Seq<char>, Seq<(Option<Seq<char>>, C)>)>) -> bool {
    &&& distinct_keys(grouped)
    &&& forall|i: int| 0 <= i < grouped.len() ==> distinct_keys((#[trigger] grouped[i]).1)
}

proof fn lemma_finalized<C>(outputs: Seq<(OutputIdView, C)>, id: OutputIdView)
    requires
        distinct_keys(outputs),
    ensures
        well_grouped(finalized(outputs)),
        grouped_lookup(finalized(outputs), id) == lookup(outputs, id),
    decreases outputs.len(),
{
    if outputs.len() > 0 {
        let before = outputs.drop_last();
        let front = finalized(before);
        let (last, output) = outputs.last();
        assert forall|i: int, j: int| 0 <= i < j < before.len() implies (#[trigger] before[i]).0
            != (#[trigger] before[j]).0 by {
            assert(outputs[i].0 != outputs[j].0);
        }
        lemma_finalized(before, id);
        let ports = ports_of(front, last.component);
        assert(distinct_keys(ports)) by {
            if has_key(front, last.component) {
                let k = slot_of(front, last.component);
                assert(front[k].0 == last.component);
                assert(distinct_keys(front[k].1));
            }
        }
        let after = upsert(ports, last.port, output);
        lemma_upsert_distinct(ports, last.port, output);
        lemma_upsert_distinct(front, last.component, after);
        lemma_upsert_lookup(front, last.component, after, id.component);
        lemma_upsert_lookup(ports, last.port, output, id.port);
        let all = finalized(outputs);
        assert forall|i: int| 0 <= i < all.len() implies distinct_keys((#[trigger] all[i]).1) by {
            if has_key(front, last.component) {
                let k = slot_of(front, last.component);
                assert(front[k].0 == last.component);
                if i != k {
                    assert(distinct_keys(front[i].1));
                }
            } else if i < front.len() {
                assert(distinct_keys(front[i].1));
            }
        }
        assert(!has_key(before, last)) by {
            if has_key(before, last) {
                let k = slot_of(before, last);
                assert(before[k].0 == last);
                assert(outputs[k].0 != outputs[outputs.len() - 1].0);
            }
        }
        assert(upsert(before, last, output) =~= outputs);
        lemma_upsert_lookup(before, last, output, id);
    }
}

} // verus!

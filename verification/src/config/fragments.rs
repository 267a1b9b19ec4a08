//! The contents of configuration files, put together before they are looked into.

use toml::Value;
use vstd::prelude::*;

use crate::text::texts;

verus! {

// ---------------------------------------------------------------------------------------------
// Outside types and calls.
// ---------------------------------------------------------------------------------------------

#[verifier::external_type_specification]
#[verifier::external_body]
#[verifier::reject_recursive_types(K)]
#[verifier::reject_recursive_types(V)]
pub struct ExTomlMap<K, V>(toml::map::Map<K, V>);

#[verifier::external_type_specification]
#[verifier::external_body]
pub struct ExTomlValue(toml::Value);

/// The entries of a `toml::Table`.
pub uninterp spec fn table_entries(table: toml::Table) -> Map<Seq<char>, Value>;

/// The entries of the table that a `toml::Value` is, where it is one.
pub uninterp spec fn table_within(value: Value) -> Option<Map<Seq<char>, Value>>;

/// What `serde_toml_merge::merge_into_table` makes of a table that another is merged into, and what
/// the error that it returns says, where it returns one.
pub uninterp spec fn table_merge(
    into: Map<Seq<char>, Value>,
    other: Map<Seq<char>, Value>,
) -> (Map<Seq<char>, Value>, Option<Seq<char>>);

/// The entries of an empty table.
pub open spec fn no_entries() -> Map<Seq<char>, Value> {
    Map::empty()
}

/// `toml::map::Map::new`: the table is empty.
#[verifier::external_body]
fn table_new() -> (table: toml::Table)
    ensures
        table_entries(table) == no_entries(),
{
    toml::Table::new()
}

/// `toml::map::Map::insert`: the key stands for the value from then on.
#[verifier::external_body]
fn table_insert(table: &mut toml::Table, key: String, value: Value)
    ensures
        table_entries(*final(table)) == table_entries(*old(table)).insert(key@, value),
{
    table.insert(key, value);
}

/// `toml::map::Map::remove`: the key is taken out with its value, where it is known.
#[verifier::external_body]
fn table_remove(table: &mut toml::Table, key: &str) -> (value: Option<Value>)
    ensures
        table_entries(*final(table)) == table_entries(*old(table)).remove(key@),
        match value {
            Some(v) => table_entries(*old(table)).contains_key(key@) && v == table_entries(
                *old(table),
            )[key@],
            None => !table_entries(*old(table)).contains_key(key@),
        },
{
    table.remove(key)
}

/// `toml::Value::Table`: the value is the table.
#[verifier::external_body]
fn value_of_table(table: toml::Table) -> (value: Value)
    ensures
        table_within(value) == Some(table_entries(table)),
{
    Value::Table(table)
}

/// `toml::Value::Table`, read back: the table that the value is, where it is one.
#[verifier::external_body]
fn table_of_value(value: Value) -> (table: Option<toml::Table>)
    ensures
        match table {
            Some(t) => table_within(value) == Some(table_entries(t)),
            None => table_within(value) is None,
        },
{
    match value {
        Value::Table(table) => Some(table),
        _ => None,
    }
}

/// `serde_toml_merge::merge_into_table`: what the table becomes, and what the error says, depend on
/// the entries of the two tables alone. Without an error the table has the keys of both. Tables
/// without a common key merge without an error, and all their values stay as they are. What becomes
/// of the values under a common key is not said, nor what an error leaves behind.
#[verifier::external_body]
fn merge_into_table(table: &mut toml::Table, other: toml::Table) -> (result: Result<(), String>)
    ensures
        table_entries(*final(table)) == table_merge(
            table_entries(*old(table)),
            table_entries(other),
        ).0,
        match result {
            Ok(()) => table_merge(table_entries(*old(table)), table_entries(other)).1 is None,
            Err(error) => table_merge(table_entries(*old(table)), table_entries(other)).1 == Some(
                error@,
            ),
        },
        result is Ok ==> table_entries(*final(table)).dom() == table_entries(
            *old(table),
        ).dom().union(table_entries(other).dom()),
        table_entries(*old(table)).dom().disjoint(table_entries(other).dom()) ==> result is Ok
            && table_entries(*final(table)) == table_entries(*old(table)).union_prefer_right(
            table_entries(other),
        ),
{
    serde_toml_merge::merge_into_table(table, other).map_err(|error| error.to_string())
}

// ---------------------------------------------------------------------------------------------
// What the files of a list came to.
// ---------------------------------------------------------------------------------------------

/// What reading a configuration file came to: its name and what it holds, or nothing where it is
/// no configuration file after all, or what is wrong with it.
pub type FileResult = Result<Option<(String, toml::Table)>, Vec<String>>;

/// What is wrong with a file.
pub open spec fn file_errors(result: FileResult) -> Seq<Seq<char>> {
    match result {
        Ok(_) => Seq::empty(),
        Err(errors) => texts(errors@),
    }
}

/// What is wrong with the files of a list, in order.
pub open spec fn all_file_errors(results: Seq<FileResult>) -> Seq<Seq<char>>
    decreases results.len(),
{
    if results.len() == 0 {
        Seq::empty()
    } else {
        all_file_errors(results.drop_last()) + file_errors(results.last())
    }
}

/// What the files of a list hold, in order.
pub open spec fn all_tables(results: Seq<FileResult>) -> Seq<(String, toml::Table)>
    decreases results.len(),
{
    if results.len() == 0 {
        Seq::empty()
    } else {
        let front = all_tables(results.drop_last());
        match results.last() {
            Ok(Some(table)) => front.push(table),
            _ => front,
        }
    }
}

/// Appends messages to a list.
pub(crate) fn append_errors(errors: &mut Vec<String>, more: Vec<String>)
    ensures
        final(errors)@ == old(errors)@ + more@,
        texts(final(errors)@) == texts(old(errors)@) + texts(more@),
{
    let mut rest = more;
    errors.append(&mut rest);
    assert(texts(errors@) =~= texts(old(errors)@) + texts(more@));
}

/// Tells what the files of a list hold from what is wrong with them.
pub fn collect_tables(results: Vec<FileResult>) -> (parts: (
    Vec<(String, toml::Table)>,
    Vec<String>,
))
    ensures
        parts.0@ == all_tables(results@),
        texts(parts.1@) == all_file_errors(results@),
{
    let ghost all = results@;
    let mut tables: Vec<(String, toml::Table)> = Vec::new();
    let mut errors: Vec<String> = Vec::new();
    assert(all.take(0).len() == 0);
    assert(texts(errors@) =~= Seq::<Seq<char>>::empty());
    for result in it: results
        invariant
            it.seq() == all,
            tables@ == all_tables(all.take(it.index())),
            texts(errors@) == all_file_errors(all.take(it.index())),
    {
        proof {
            let i = it.index() as int;
            assert(all.take(i + 1).drop_last() =~= all.take(i));
            assert(all.take(i + 1).last() == result);
            assert(all_file_errors(all.take(i)) + Seq::<Seq<char>>::empty() =~= all_file_errors(
                all.take(i),
            ));
        }
        match result {
            Ok(Some(table)) => {
                tables.push(table);
            },
            Ok(None) => {},
            Err(more) => {
                append_errors(&mut errors, more);
            },
        }
    }
    assert(all.take(all.len() as int) =~= all);
    (tables, errors)
}

// ---------------------------------------------------------------------------------------------
// Files that stand for one configuration.
// ---------------------------------------------------------------------------------------------

/// What a merge said went wrong.
pub open spec fn merge_errors(error: Option<Seq<char>>) -> Seq<Seq<char>> {
    match error {
        Some(text) => seq![text],
        None => Seq::empty(),
    }
}

/// The table that the files of a list make when each is merged into those before it, and what went
/// wrong on the way.
pub open spec fn merged_root(results: Seq<FileResult>) -> (
    Map<Seq<char>, Value>,
    Seq<Seq<char>>,
)
    decreases results.len(),
{
    if results.len() == 0 {
        (Map::empty(), Seq::empty())
    } else {
        let front = merged_root(results.drop_last());
        match results.last() {
            Ok(Some(file)) => {
                let merged = table_merge(front.0, table_entries(file.1));
                (merged.0, front.1 + merge_errors(merged.1))
            },
            Ok(None) => front,
            Err(errors) => (front.0, front.1 + texts(errors@)),
        }
    }
}

/// What a file holds, where it holds something.
pub open spec fn held_by(result: FileResult) -> toml::Table {
    (result->Ok_0->Some_0).1
}

/// The keys of a file at the top.
pub open spec fn file_keys(result: FileResult) -> Set<Seq<char>> {
    match result {
        Ok(Some(file)) => table_entries(file.1).dom(),
        _ => Set::empty(),
    }
}

/// Some file of the list has the key at its top.
pub open spec fn some_file_has(results: Seq<FileResult>, key: Seq<char>) -> bool {
    exists|i: int| 0 <= i < results.len() && #[trigger] file_keys(results[i]).contains(key)
}

/// No two files of the list have a common key at their tops.
pub open spec fn no_common_keys(results: Seq<FileResult>) -> bool {
    forall|i: int, j: int|
        0 <= i < j < results.len() ==> (#[trigger] file_keys(results[i])).disjoint(
            #[trigger] file_keys(results[j]),
        )
}

/// Merges the files of a list into one table. Where nothing goes wrong, the table has the keys of
/// all files and no others; and files without common keys merge without going wrong, each key
/// standing for what it stands for in its file.
pub fn merge_root(results: Vec<FileResult>) -> (merged: (toml::Table, Vec<String>))
    ensures
        (table_entries(merged.0), texts(merged.1@)) == merged_root(results@),
        merged.1@.len() == 0 ==> forall|key: Seq<char>| #[trigger]
            table_entries(merged.0).contains_key(key) == some_file_has(results@, key),
        no_common_keys(results@) ==> texts(merged.1@) == all_file_errors(results@),
        no_common_keys(results@) ==> forall|i: int, key: Seq<char>|
            0 <= i < results@.len() && #[trigger] file_keys(results@[i]).contains(key)
                ==> table_entries(merged.0).contains_key(key) && table_entries(merged.0)[key]
                == table_entries(held_by(results@[i]))[key],
{
    let ghost all = results@;
    let mut root = table_new();
    let mut errors: Vec<String> = Vec::new();
    assert(all.take(0).len() == 0);
    assert(texts(errors@) =~= Seq::<Seq<char>>::empty());
    for result in it: results
        invariant
            it.seq() == all,
            (table_entries(root), texts(errors@)) == merged_root(all.take(it.index())),
            errors@.len() == 0 || no_common_keys(all) ==> forall|key: Seq<char>| #[trigger]
                table_entries(root).contains_key(key) == some_file_has(
                    all.take(it.index()),
                    key,
                ),
            no_common_keys(all) ==> texts(errors@) == all_file_errors(all.take(it.index())),
            no_common_keys(all) ==> forall|i: int, key: Seq<char>|
                0 <= i < it.index() && #[trigger] file_keys(all[i]).contains(key)
                    ==> table_entries(root).contains_key(key) && table_entries(root)[key]
                    == table_entries(held_by(all[i]))[key],
    {
        let ghost i = it.index() as int;
        let ghost taken = all.take(i + 1);
        let ghost before = table_entries(root);
        let ghost old_errors = errors@;
        proof {
            assert(taken.drop_last() =~= all.take(i));
            assert(taken.last() == result);
            assert(all_file_errors(all.take(i)) + Seq::<Seq<char>>::empty() =~= all_file_errors(
                all.take(i),
            ));
            assert forall|key: Seq<char>| some_file_has(taken, key) == (some_file_has(
                all.take(i),
                key,
            ) || file_keys(result).contains(key)) by {
                lemma_some_file_has(all, i, key);
            }
        }
        match result {
            Ok(Some(file)) => {
                let ghost entries = table_entries(file.1);
                proof {
                    if no_common_keys(all) {
                        assert(before.dom().disjoint(entries.dom())) by {
                            assert forall|key: Seq<char>| before.dom().contains(key) implies !(
                            #[trigger] entries.dom().contains(key)) by {
                                assert(before.contains_key(key));
                                assert(some_file_has(all.take(i), key));
                                let j = choose|j: int|
                                    0 <= j < i && #[trigger] file_keys(
                                        all.take(i)[j],
                                    ).contains(key);
                                assert(file_keys(all[j]).disjoint(file_keys(all[i])));
                            }
                        }
                    }
                }
                match merge_into_table(&mut root, file.1) {
                    Ok(()) => {
                        assert(texts(errors@) + merge_errors(None) =~= texts(errors@));
                    },
                    Err(error) => {
                        errors.push(error);
                        assert(texts(errors@) =~= texts(old_errors) + seq![error@]);
                    },
                }
            },
            Ok(None) => {},
            Err(more) => {
                append_errors(&mut errors, more);
            },
        }
        proof {
            assert(old_errors.len() <= errors@.len());
            assert forall|key: Seq<char>| errors@.len() == 0 || no_common_keys(all) implies (
            #[trigger] table_entries(root).contains_key(key)) == some_file_has(taken, key) by {
                assert(some_file_has(taken, key) == (some_file_has(all.take(i), key)
                    || file_keys(result).contains(key)));
                assert(before.contains_key(key) == some_file_has(all.take(i), key));
                assert(table_entries(root).dom() =~= before.dom().union(file_keys(result)));
            }
            if no_common_keys(all) {
                assert forall|k: int, key: Seq<char>|
                    0 <= k < i + 1 && #[trigger] file_keys(all[k]).contains(
                        key,
                    ) implies table_entries(root).contains_key(key) && table_entries(root)[key]
                    == table_entries(held_by(all[k]))[key] by {
                    if k < i {
                        assert(file_keys(all[k]).disjoint(file_keys(all[i])));
                    }
                }
            }
        }
    }
    assert(all.take(all.len() as int) =~= all);
    (root, errors)
}

/// A key that some file of a longer list has is one of the files before it, or of the last.
proof fn lemma_some_file_has(all: Seq<FileResult>, i: int, key: Seq<char>)
    requires
        0 <= i < all.len(),
    ensures
        some_file_has(all.take(i + 1), key) == (some_file_has(all.take(i), key) || file_keys(
            all[i],
        ).contains(key)),
{
    let taken = all.take(i + 1);
    let front = all.take(i);
    if some_file_has(front, key) {
        let j = choose|j: int| 0 <= j < i && #[trigger] file_keys(front[j]).contains(key);
        assert(file_keys(taken[j]).contains(key));
    }
    if file_keys(all[i]).contains(key) {
        assert(file_keys(taken[i]).contains(key));
    }
    if some_file_has(taken, key) {
        let j = choose|j: int| 0 <= j < taken.len() && #[trigger] file_keys(taken[j]).contains(key);
        if j < i {
            assert(file_keys(front[j]).contains(key));
        }
    }
}

// ---------------------------------------------------------------------------------------------
// Files that stand for one component each.
// ---------------------------------------------------------------------------------------------

/// Tables under names.
pub type NamedTables = Map<Seq<char>, Map<Seq<char>, Value>>;

/// The tables that a table holds.
pub open spec fn tables_within(entries: Map<Seq<char>, Value>) -> NamedTables {
    Map::new(
        |key: Seq<char>| entries.contains_key(key),
        |key: Seq<char>| table_within(entries[key])->0,
    )
}

/// A table holds nothing but tables.
pub open spec fn holds_tables(entries: Map<Seq<char>, Value>) -> bool {
    forall|key: Seq<char>| #[trigger]
        entries.contains_key(key) ==> table_within(entries[key]) is Some
}

/// The tables that the files of a list make, each under the name of its file, and what went wrong
/// on the way. Files of one name are merged.
pub open spec fn merged_components(results: Seq<FileResult>) -> (NamedTables, Seq<Seq<char>>)
    decreases results.len(),
{
    if results.len() == 0 {
        (Map::empty(), Seq::empty())
    } else {
        let front = merged_components(results.drop_last());
        match results.last() {
            Ok(Some(file)) => {
                let name = file.0@;
                if front.0.contains_key(name) {
                    let merged = table_merge(front.0[name], table_entries(file.1));
                    (front.0.insert(name, merged.0), front.1 + merge_errors(merged.1))
                } else {
                    (front.0.insert(name, table_entries(file.1)), front.1)
                }
            },
            Ok(None) => front,
            Err(errors) => (front.0, front.1 + texts(errors@)),
        }
    }
}

/// Puts the files of a list into one table, each under its name.
pub fn merge_components(results: Vec<FileResult>) -> (merged: (toml::Table, Vec<String>))
    ensures
        holds_tables(table_entries(merged.0)),
        (tables_within(table_entries(merged.0)), texts(merged.1@)) == merged_components(results@),
{
    let ghost all = results@;
    let mut component_table = table_new();
    let mut errors: Vec<String> = Vec::new();
    assert(all.take(0).len() == 0);
    assert(texts(errors@) =~= Seq::<Seq<char>>::empty());
    assert(tables_within(table_entries(component_table)) =~= Map::empty());
    for result in it: results
        invariant
            it.seq() == all,
            holds_tables(table_entries(component_table)),
            (tables_within(table_entries(component_table)), texts(errors@)) == merged_components(
                all.take(it.index()),
            ),
    {
        let ghost i = it.index() as int;
        let ghost before = table_entries(component_table);
        let ghost old_errors = errors@;
        proof {
            assert(all.take(i + 1).drop_last() =~= all.take(i));
            assert(all.take(i + 1).last() == result);
        }
        match result {
            Ok(Some(file)) => {
                let (name, table) = file;
                let ghost entries = table_entries(table);
                match table_remove(&mut component_table, name.as_str()) {
                    Some(value) => {
                        assert(before.contains_key(name@));
                        let mut existing = table_of_value(value).unwrap();
                        match merge_into_table(&mut existing, table) {
                            Ok(()) => {
                                assert(texts(errors@) + merge_errors(None) =~= texts(errors@));
                            },
                            Err(error) => {
                                errors.push(error);
                                assert(texts(errors@) =~= texts(old_errors) + seq![error@]);
                            },
                        }
                        table_insert(&mut component_table, name, value_of_table(existing));
                        proof {
                            let after = table_entries(component_table);
                            let merged = table_merge(tables_within(before)[name@], entries);
                            assert(tables_within(after) =~= tables_within(before).insert(
                                name@,
                                merged.0,
                            ));
                        }
                    },
                    None => {
                        table_insert(&mut component_table, name, value_of_table(table));
                        proof {
                            let after = table_entries(component_table);
                            assert(tables_within(after) =~= tables_within(before).insert(
                                name@,
                                entries,
                            ));
                        }
                    },
                }
            },
            Ok(None) => {},
            Err(more) => {
                append_errors(&mut errors, more);
            },
        }
    }
    assert(all.take(all.len() as int) =~= all);
    (component_table, errors)
}

/// The file at the position holds something, under the name.
pub open spec fn file_is_named(results: Seq<FileResult>, i: int, name: Seq<char>) -> bool {
    match results[i] {
        Ok(Some(file)) => file.0@ == name,
        _ => false,
    }
}

/// There is a table for each name that a file has, and for no other; and where no two files have
/// the same name, nothing goes wrong but with files that could not be read, and each table is what
/// its file holds.
pub proof fn law_components(results: Seq<FileResult>, name: Seq<char>)
    ensures
        merged_components(results).0.contains_key(name) == (exists|i: int|
            0 <= i < results.len() && #[trigger] file_is_named(results, i, name)),
        names_differ(results) ==> merged_components(results).1 == all_file_errors(results),
        names_differ(results) ==> forall|i: int|
            0 <= i < results.len() && #[trigger] file_is_named(results, i, name)
                ==> merged_components(results).0[name] == table_entries(
                held_by(results[i]),
            ),
    decreases results.len(),
{
    if results.len() > 0 {
        let front = results.drop_last();
        let last = results.len() - 1;
        law_components(front, name);
        assert forall|i: int, n: Seq<char>| 0 <= i < last implies file_is_named(front, i, n)
            == #[trigger] file_is_named(results, i, n) by {}
        if exists|i: int| 0 <= i < front.len() && #[trigger] file_is_named(front, i, name) {
            let i = choose|i: int| 0 <= i < front.len() && #[trigger] file_is_named(front, i, name);
            assert(file_is_named(results, i, name));
        }
        if file_is_named(results, last, name) {
            assert(file_is_named(results, last, name));
        }
        if exists|i: int| 0 <= i < results.len() && #[trigger] file_is_named(results, i, name) {
            let i = choose|i: int|
                0 <= i < results.len() && #[trigger] file_is_named(results, i, name);
            if i < last {
                assert(file_is_named(front, i, name));
            }
        }
        if names_differ(results) {
            assert(names_differ(front)) by {
                assert forall|i: int, j: int, n: Seq<char>|
                    0 <= i < j < front.len() && #[trigger] file_is_named(
                        front,
                        i,
                        n,
                    ) implies !#[trigger] file_is_named(front, j, n) by {
                    assert(file_is_named(results, i, n));
                    assert(!file_is_named(results, j, n));
                }
            }
            if let Ok(Some(file)) = results.last() {
                let own = file.0@;
                assert(file_is_named(results, last, own));
                law_components(front, own);
                if merged_components(front).0.contains_key(own) {
                    let i = choose|i: int|
                        0 <= i < front.len() && #[trigger] file_is_named(front, i, own);
                    assert(file_is_named(results, i, own));
                }
            }
            assert(merged_components(results).1 =~= all_file_errors(results));
        }
    }
}

/// No two files have the same name.
pub open spec fn names_differ(results: Seq<FileResult>) -> bool {
    forall|i: int, j: int, name: Seq<char>|
        0 <= i < j < results.len() && #[trigger] file_is_named(results, i, name)
            ==> !#[trigger] file_is_named(results, j, name)
}

/// What a file adds to those before it. One that holds something is merged into what they make, or
/// stands alone under its name where none of them had it; one that is no configuration file changes
/// nothing; and what is wrong with one that could not be read is told last.
pub proof fn law_one_more_file(results: Seq<FileResult>, result: FileResult)
    ensures
        ({
            let root = merged_root(results);
            let more_root = merged_root(results.push(result));
            let named = merged_components(results);
            let more_named = merged_components(results.push(result));
            let tables = all_tables(results);
            let more_tables = all_tables(results.push(result));
            let wrong = all_file_errors(results);
            let more_wrong = all_file_errors(results.push(result));
            match result {
                Ok(Some((name, table))) => {
                    let merged = table_merge(root.0, table_entries(table));
                    let both = table_merge(named.0[name@], table_entries(table));
                    &&& more_root.0 == merged.0
                    &&& more_root.1 == (match merged.1 {
                        Some(error) => root.1.push(error),
                        None => root.1,
                    })
                    &&& if named.0.contains_key(name@) {
                        &&& more_named.0 == named.0.insert(name@, both.0)
                        &&& more_named.1 == (match both.1 {
                            Some(error) => named.1.push(error),
                            None => named.1,
                        })
                    } else {
                        &&& more_named.0 == named.0.insert(name@, table_entries(table))
                        &&& more_named.1 == named.1
                    }
                    &&& more_tables == tables.push((name, table))
                    &&& more_wrong == wrong
                },
                Ok(None) => {
                    &&& more_root == root
                    &&& more_named == named
                    &&& more_tables == tables
                    &&& more_wrong == wrong
                },
                Err(errors) => {
                    &&& more_root == (root.0, root.1 + texts(errors@))
                    &&& more_named == (named.0, named.1 + texts(errors@))
                    &&& more_tables == tables
                    &&& more_wrong == wrong + texts(errors@)
                },
            }
        }),
        merged_root(seq![]) == (no_entries(), Seq::<Seq<char>>::empty()),
        all_tables(seq![]).len() == 0,
        all_file_errors(seq![]).len() == 0,
{
    let more = results.push(result);
    assert(more.drop_last() =~= results);
    assert(more.last() == result);
    assert(merged_root(more).1 =~= (match result {
        Ok(Some((name, table))) => match table_merge(
            merged_root(results).0,
            table_entries(table),
        ).1 {
            Some(error) => merged_root(results).1.push(error),
            None => merged_root(results).1,
        },
        Ok(None) => merged_root(results).1,
        Err(errors) => merged_root(results).1 + texts(errors@),
    }));
    let named = merged_components(results);
    if let Ok(Some((name, table))) = result {
        if named.0.contains_key(name@) {
            let both = table_merge(named.0[name@], table_entries(table));
            assert(merged_components(more).1 =~= (match both.1 {
                Some(error) => named.1.push(error),
                None => named.1,
            }));
        }
    }
    assert(all_file_errors(results) + Seq::<Seq<char>>::empty() =~= all_file_errors(results));
}

} // verus!

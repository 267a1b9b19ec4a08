//! Where configurations are read from.

use vstd::prelude::*;

use crate::config::fragments::append_errors;
use crate::text::{opt_text, texts};

verus! {

/// How a configuration file is written.
#[derive(Debug, Clone, Copy, PartialEq, Eq, Structural)]
pub enum Format {
    Toml,
    Json,
    Yaml,
}

/// What a configuration file in a directory of its own holds.
#[derive(Debug, Clone, Copy, PartialEq, Eq, Structural)]
pub enum ComponentHint {
    Source,
    Transform,
    Sink,
    Test,
    EnrichmentTable,
}

/// The kinds of components that have a directory of their own, in the order in which these are
/// read.
pub open spec fn hints() -> Seq<ComponentHint> {
    seq![
        ComponentHint::Source,
        ComponentHint::Transform,
        ComponentHint::Sink,
        ComponentHint::Test,
        ComponentHint::EnrichmentTable,
    ]
}

/// Lists the kinds of components that have a directory of their own.
pub fn component_hints() -> (list: Vec<ComponentHint>)
    ensures
        list@ == hints(),
{
    let mut list: Vec<ComponentHint> = Vec::new();
    list.push(ComponentHint::Source);
    list.push(ComponentHint::Transform);
    list.push(ComponentHint::Sink);
    list.push(ComponentHint::Test);
    list.push(ComponentHint::EnrichmentTable);
    assert(list@ =~= hints());
    list
}

impl ComponentHint {
    /// Whether the directory of a kind of components is read with the directories in it: transforms
    /// can be nested, others are flat.
    pub fn recurses(self) -> (recurses: bool)
        ensures
            recurses == (self == ComponentHint::Transform),
    {
        match self {
            ComponentHint::Transform => true,
            _ => false,
        }
    }
}

/// The format that a file is read in: the one that it is said to have, else the one that its name
/// tells, else TOML.
pub fn file_format(said: Option<Format>, told: Option<Format>) -> (format: Format)
    ensures
        format == (match (said, told) {
            (Some(format), _) => format,
            (None, Some(format)) => format,
            (None, None) => Format::Toml,
        }),
{
    match (said, told) {
        (Some(format), _) => format,
        (None, Some(format)) => format,
        (None, None) => Format::Toml,
    }
}

// ---------------------------------------------------------------------------------------------
// Directories.
// ---------------------------------------------------------------------------------------------

/// What stands in a directory.
pub enum DirEntry<P> {
    /// A file, with the format that its name tells, where it tells one.
    File { path: P, format: Option<Format> },
    /// A directory, with its name and, where it was entered, with what stands in it.
    Dir { name: Option<String>, listing: Listing<P> },
    /// Something else.
    Other,
    /// Something that could not be read.
    Unreadable { dir: String, error: String },
}

/// What stands in a directory, or why it could not be read.
pub enum Listing<P> {
    Read(Vec<DirEntry<P>>),
    Failed(Vec<String>),
}

/// A directory whose name starts with a dot.
pub open spec fn is_hidden(name: Option<Seq<char>>) -> bool {
    match name {
        Some(text) => text.len() > 0 && text[0] == '.',
        None => false,
    }
}

/// Tells whether a directory in a directory is entered: hidden ones never are.
pub fn enters(recurse: bool, name: &Option<String>) -> (enters: bool)
    ensures
        enters == (recurse && !is_hidden(opt_text(*name))),
{
    if recurse {
        match name {
            Some(text) => !(text.as_str().unicode_len() > 0 && text.as_str().get_char(0) == '.'),
            None => true,
        }
    } else {
        false
    }
}

/// What is said of something in a directory that could not be read.
pub open spec fn entry_error(dir: Seq<char>, error: Seq<char>) -> Seq<char> {
    "Could not read entry in config dir: "@ + dir + ", "@ + error + "."@
}

/// The files of known format in a directory, in the order in which they are come upon, and what
/// could not be read.
pub open spec fn collected<P>(listing: Listing<P>, recurse: bool) -> (
    Seq<(P, Format)>,
    Seq<Seq<char>>,
)
    decreases listing,
{
    match listing {
        Listing::Read(entries) => collected_entries(entries@, recurse),
        Listing::Failed(errors) => (Seq::empty(), texts(errors@)),
    }
}

/// The files of known format among the entries of a directory, and what could not be read.
pub open spec fn collected_entries<P>(entries: Seq<DirEntry<P>>, recurse: bool) -> (
    Seq<(P, Format)>,
    Seq<Seq<char>>,
)
    decreases entries,
{
    if entries.len() == 0 {
        (Seq::empty(), Seq::empty())
    } else {
        let front = collected_entries(entries.drop_last(), recurse);
        let last = collected_entry(entries.last(), recurse);
        (front.0 + last.0, front.1 + last.1)
    }
}

/// The files of known format that an entry stands for, and what could not be read.
pub open spec fn collected_entry<P>(entry: DirEntry<P>, recurse: bool) -> (
    Seq<(P, Format)>,
    Seq<Seq<char>>,
)
    decreases entry,
{
    match entry {
        DirEntry::File { path, format } => match format {
            Some(known) => (seq![(path, known)], Seq::empty()),
            None => (Seq::empty(), Seq::empty()),
        },
        DirEntry::Dir { name, listing } => if recurse && !is_hidden(opt_text(name)) {
            collected(listing, true)
        } else {
            (Seq::empty(), Seq::empty())
        },
        DirEntry::Other => (Seq::empty(), Seq::empty()),
        DirEntry::Unreadable { dir, error } => (
            Seq::empty(),
            seq![entry_error(dir@, error@)],
        ),
    }
}

/// A directory, or something in it that is entered, could not be read.
pub open spec fn is_unread<P>(listing: Listing<P>, recurse: bool) -> bool {
    listing is Failed || collected(listing, recurse).1.len() > 0
}

/// Adds to a list the files of known format in a directory, and in the directories in it where
/// these are entered.
fn collect_files_recursive<P>(
    listing: Listing<P>,
    recurse: bool,
    files: &mut Vec<(P, Format)>,
) -> (result: Result<(), Vec<String>>)
    ensures
        final(files)@ == old(files)@ + collected(listing, recurse).0,
        match result {
            Ok(()) => !is_unread(listing, recurse),
            Err(errors) => is_unread(listing, recurse) && texts(errors@) == collected(
                listing,
                recurse,
            ).1,
        },
    decreases listing,
{
    match listing {
        Listing::Failed(errors) => {
            assert(files@ =~= old(files)@ + collected(listing, recurse).0);
            Err(errors)
        },
        Listing::Read(entries) => {
            let ghost all = entries@;
            let mut errors: Vec<String> = Vec::new();
            assert(all.take(0).len() == 0);
            assert(texts(errors@) =~= Seq::<Seq<char>>::empty());
            assert(files@ =~= old(files)@ + collected_entries(all.take(0), recurse).0);
            for entry in it: entries
                invariant
                    it.seq() == all,
                    decreases_to!(listing => all),
                    files@ == old(files)@ + collected_entries(all.take(it.index()), recurse).0,
                    texts(errors@) == collected_entries(all.take(it.index()), recurse).1,
            {
                let ghost i = it.index() as int;
                let ghost before = files@;
                let ghost old_errors = errors@;
                proof {
                    assert(all.take(i + 1).drop_last() =~= all.take(i));
                    assert(all.take(i + 1).last() == entry);
                    assert(decreases_to!(all => all[i]));
                }
                match entry {
                    DirEntry::File { path, format } => {
                        if let Some(known) = format {
                            files.push((path, known));
                        }
                    },
                    DirEntry::Dir { name, listing: within } => {
                        assert(decreases_to!(all[i] => all[i]->listing));
                        if enters(recurse, &name) {
                            if let Err(more) = collect_files_recursive(within, true, files) {
                                append_errors(&mut errors, more);
                            }
                        }
                    },
                    DirEntry::Other => {},
                    DirEntry::Unreadable { dir, error } => {
                        errors.push(
                            "Could not read entry in config dir: ".to_string().concat(
                                dir.as_str(),
                            ).concat(", ").concat(error.as_str()).concat("."),
                        );
                    },
                }
                proof {
                    let last = collected_entry(entry, recurse);
                    assert(files@ =~= before + last.0);
                    assert(texts(errors@) =~= texts(old_errors) + last.1);
                    assert(files@ =~= old(files)@ + collected_entries(
                        all.take(i + 1),
                        recurse,
                    ).0);
                }
            }
            assert(all.take(all.len() as int) =~= all);
            assert(texts(errors@).len() == errors@.len());
            if errors.len() == 0 {
                Ok(())
            } else {
                Err(errors)
            }
        },
    }
}

/// Lists the files of known format in a directory, and in the directories in it where these are
/// asked for. Where anything could not be read, only what could not be read is told.
pub fn collect_files_in_dir<P>(listing: Listing<P>, recurse: bool) -> (result: Result<
    Vec<(P, Format)>,
    Vec<String>,
>)
    ensures
        match result {
            Ok(files) => !is_unread(listing, recurse) && files@ == collected(listing, recurse).0,
            Err(errors) => is_unread(listing, recurse) && texts(errors@) == collected(
                listing,
                recurse,
            ).1,
        },
{
    let mut files: Vec<(P, Format)> = Vec::new();
    match collect_files_recursive(listing, recurse, &mut files) {
        Ok(()) => {
            assert(files@ =~= collected(listing, recurse).0);
            Ok(files)
        },
        Err(errors) => Err(errors),
    }
}

/// A file whose name tells no format changes nothing, wherever it stands.
pub proof fn law_unknown_formats_are_ignored<P>(
    before: Seq<DirEntry<P>>,
    path: P,
    after: Seq<DirEntry<P>>,
    recurse: bool,
)
    ensures
        collected_entries(
            before.push(DirEntry::File { path, format: None }) + after,
            recurse,
        ) == collected_entries(before + after, recurse),
    decreases after.len(),
{
    let file = DirEntry::File { path, format: None };
    let with = before.push(file) + after;
    let without = before + after;
    let found = collected_entries(with, recurse);
    if after.len() == 0 {
        assert(with.drop_last() =~= before);
        assert(with.last() == file);
        assert(without =~= before);
        let own = collected_entry(file, recurse);
        assert(own.0.len() == 0 && own.1.len() == 0);
        let front = collected_entries(before, recurse);
        assert(found == (front.0 + own.0, front.1 + own.1));
        assert(found.0 =~= front.0);
        assert(found.1 =~= front.1);
    } else {
        law_unknown_formats_are_ignored(before, path, after.drop_last(), recurse);
        assert(with.drop_last() =~= before.push(file) + after.drop_last());
        assert(with.last() == after.last());
        assert(without.last() == after.last());
        assert(without.drop_last() =~= before + after.drop_last());
        assert(found == collected_entries(without, recurse));
    }
}

/// What stands in a hidden directory is never looked at, and where directories are not asked for
/// no directory is.
pub proof fn law_skipped_directories<P>(
    name: Option<String>,
    listing: Listing<P>,
    recurse: bool,
)
    requires
        !recurse || is_hidden(opt_text(name)),
    ensures
        collected_entry(DirEntry::Dir { name, listing }, recurse) == (
            Seq::<(P, Format)>::empty(),
            Seq::<Seq<char>>::empty(),
        ),
{
}

/// The entries of a directory can be gone through part by part. A file of known format stands for
/// itself. A directory in it stands for what stands in it, where directories are asked for and its
/// name does not start with a dot. What could not be read is told with its directory.
pub proof fn law_entries_by_parts<P>(
    head: Seq<DirEntry<P>>,
    tail: Seq<DirEntry<P>>,
    entry: DirEntry<P>,
    recurse: bool,
)
    ensures
        collected_entries(head + tail, recurse).0 == collected_entries(head, recurse).0
            + collected_entries(tail, recurse).0,
        collected_entries(head + tail, recurse).1 == collected_entries(head, recurse).1
            + collected_entries(tail, recurse).1,
        ({
            let only = collected_entries(seq![entry], recurse);
            match entry {
                DirEntry::File { path, format: Some(format) } => only.0 == seq![(path, format)]
                    && only.1.len() == 0,
                DirEntry::File { path, format: None } => only.0.len() == 0 && only.1.len() == 0,
                DirEntry::Dir { name, listing } => {
                    let dotted = name matches Some(text) && text@.len() > 0 && text@[0] == '.';
                    if recurse && !dotted {
                        match listing {
                            Listing::Read(entries) => only == collected_entries(entries@, true),
                            Listing::Failed(errors) => only.0.len() == 0 && only.1 == texts(
                                errors@,
                            ),
                        }
                    } else {
                        only.0.len() == 0 && only.1.len() == 0
                    }
                },
                DirEntry::Other => only.0.len() == 0 && only.1.len() == 0,
                DirEntry::Unreadable { dir, error } => only.0.len() == 0 && only.1 == seq![
                    "Could not read entry in config dir: "@ + dir@ + ", "@ + error@ + "."@,
                ],
            }
        }),
    decreases tail.len(),
{
    let one = seq![entry];
    assert(one.drop_last() =~= Seq::empty());
    assert(one.last() == entry);
    let none = collected_entries(one.drop_last(), recurse);
    assert(none.0.len() == 0 && none.1.len() == 0);
    let own = collected_entry(entry, recurse);
    let only = collected_entries(one, recurse);
    assert(only == (none.0 + own.0, none.1 + own.1));
    assert(only.0 =~= own.0);
    assert(only.1 =~= own.1);
    if let DirEntry::Dir { name, listing } = entry {
        let dotted = name matches Some(text) && text@.len() > 0 && text@[0] == '.';
        assert(dotted == is_hidden(opt_text(name)));
        if recurse && !dotted {
            assert(own == collected(listing, true));
            match listing {
                Listing::Read(entries) => {
                    assert(collected(listing, true) == collected_entries(entries@, true));
                },
                Listing::Failed(errors) => {
                    assert(collected(listing, true).1 == texts(errors@));
                },
            }
        }
    }
    if tail.len() > 0 {
        law_entries_by_parts(head, tail.drop_last(), entry, recurse);
        assert((head + tail).drop_last() =~= head + tail.drop_last());
        assert((head + tail).last() == tail.last());
    } else {
        assert(head + tail =~= head);
    }
    assert(collected_entries(head + tail, recurse).0 =~= collected_entries(head, recurse).0
        + collected_entries(tail, recurse).0);
    assert(collected_entries(head + tail, recurse).1 =~= collected_entries(head, recurse).1
        + collected_entries(tail, recurse).1);
}

/// The files of a directory are listed where all of it could be read, and else all that could not
/// be read is told.
pub proof fn law_files_in_dir<P>(
    listing: Listing<P>,
    recurse: bool,
    result: Result<Vec<(P, Format)>, Vec<String>>,
)
    requires
        call_ensures(collect_files_in_dir::<P>, (listing, recurse), result),
    ensures
        match listing {
            Listing::Failed(wrong) => result matches Err(errors) && texts(errors@) == texts(wrong@),
            Listing::Read(entries) => {
                let (files, wrong) = collected_entries(entries@, recurse);
                match result {
                    Ok(found) => found@ == files && wrong.len() == 0,
                    Err(errors) => texts(errors@) == wrong && wrong.len() > 0,
                }
            },
        },
{
}

/// The components of a configuration come from five kinds of directories, each kind once, and
/// sources, transforms and sinks before tests and tables. Only transforms are looked for in the
/// directories within.
pub proof fn law_kinds(list: Vec<ComponentHint>, hint: ComponentHint, recurses: bool)
    requires
        call_ensures(component_hints, (), list),
        call_ensures(ComponentHint::recurses, (hint,), recurses),
    ensures
        list@.len() == 5,
        list@[0] == ComponentHint::Source,
        list@[1] == ComponentHint::Transform,
        list@[2] == ComponentHint::Sink,
        list@[3] == ComponentHint::Test,
        list@[4] == ComponentHint::EnrichmentTable,
        recurses <==> hint == ComponentHint::Transform,
{
}

/// A file is read in the format that it is said to have, whatever its name tells; and a file of
/// which nothing says the format is TOML.
pub proof fn law_file_format(said: Option<Format>, told: Option<Format>, format: Format)
    requires
        call_ensures(file_format, (said, told), format),
    ensures
        said is Some ==> Some(format) == said,
        said is None && told is Some ==> Some(format) == told,
        said is None && told is None ==> format == Format::Toml,
{
}

/// A directory in a directory is entered exactly where directories are asked for and its name does
/// not start with a dot.
pub proof fn law_entered(recurse: bool, name: Option<String>, entered: bool)
    requires
        call_ensures(enters, (recurse, &name), entered),
    ensures
        entered <==> recurse && !(name matches Some(text) && text@.len() > 0 && text@[0] == '.'),
{
}

} // verus!

//! The descriptor directory: which of its files are probe scripts, and the
//! registry that they make.
//!
//! A file is a probe script where its path ends in `.prom`; every other file
//! is passed over. Each script is registered under the label that its
//! descriptor declares, with its own path as the script to run. One script
//! that cannot be read, or whose descriptor is malformed, fails the whole
//! directory: there is no registry of the rest.

use crate::descriptor::{
    descriptor_of, first_malformed, header, lemma_first_malformed_once, read_infos, well_formed,
    ParseDefect,
};
use crate::registry::{
    distinct_labels, found, holds, lemma_registered_distinct, lemma_registered_found, named_at,
    place_of, registered, EntryModel, Registry, RegistryModel,
};
use crate::scripts::ScraperScript;
use crate::text::{chars_of, ends_with, Span};
use vstd::prelude::*;

verus! {

/// A file of the directory.
#[derive(Clone, Debug, PartialEq, Eq)]
pub struct SourceFile {
    pub path: String,
    /// The text of the file, or `None` where it could not be read as text.
    /// It is looked at for probe scripts only.
    pub contents: Option<String>,
}

/// A file as plain values.
pub struct FileModel {
    pub path: Seq<char>,
    pub contents: Option<Seq<char>>,
}

impl View for SourceFile {
    type V = FileModel;

    open spec fn view(&self) -> FileModel {
        FileModel {
            path: self.path@,
            contents: match self.contents {
                Some(text) => Some(text@),
                None => None,
            },
        }
    }
}

/// What listing the directory gave.
#[derive(Clone, Debug, PartialEq, Eq)]
pub enum Directory {
    /// The directory is missing or could not be listed.
    Unreadable,
    /// The files of the directory, in the order in which they were listed.
    Listed(Vec<SourceFile>),
}

/// Why a directory makes no registry.
#[derive(Clone, Copy, Debug, PartialEq, Eq, Structural)]
pub enum BuildDefect {
    /// The directory is missing or could not be listed.
    DirectoryUnreadable,
    /// The probe script listed at place `file` could not be read as text.
    FileUnreadable { file: usize },
    /// The descriptor of the probe script listed at place `file` is
    /// malformed on line `line`.
    DescriptorMalformed { file: usize, line: usize },
}

/// A registry with the number of probe scripts that went into it.
#[derive(Debug, PartialEq, Eq)]
pub struct Loaded {
    pub registry: Registry,
    /// The number of probe scripts that were registered. It exceeds the
    /// number of entries by the number of scripts that a later one with the
    /// same label has shadowed.
    pub loaded: usize,
}

impl Loaded {
    /// The number of probe scripts that are hidden behind a later one with
    /// the same label.
    pub open spec fn shadowed_count(self) -> usize {
        if self.loaded >= self.registry@.entries.len() {
            (self.loaded - self.registry@.entries.len()) as usize
        } else {
            0
        }
    }

    /// The number of probe scripts that are hidden behind a later one with
    /// the same label.
    pub fn shadowed(&self) -> (n: usize)
        ensures
            n == self.shadowed_count(),
    {
        let entries = self.registry.len();
        if self.loaded >= entries {
            self.loaded - entries
        } else {
            0
        }
    }
}

impl Directory {
    /// The files that were listed, as plain values.
    pub open spec fn files(self) -> Option<Seq<FileModel>> {
        match self {
            Directory::Unreadable => None,
            Directory::Listed(files) => Some(listing(files@)),
        }
    }
}

/// The files as plain values.
pub open spec fn listing(files: Seq<SourceFile>) -> Seq<FileModel> {
    files.map_values(|file: SourceFile| file@)
}

/// The ending that marks a probe script.
pub open spec fn descriptor_suffix() -> Seq<char> {
    ".prom"@
}

/// `path` is that of a probe script.
pub open spec fn selected(path: Seq<char>) -> bool {
    descriptor_suffix().is_suffix_of(path)
}

/// `file` does not stand in the way of a registry: it is no probe script, or
/// one that was read and whose descriptor is well formed.
pub open spec fn sound(file: FileModel) -> bool {
    selected(file.path) ==> (file.contents matches Some(text) && well_formed(text))
}

/// Every one of `files` is sound.
pub open spec fn all_sound(files: Seq<FileModel>) -> bool {
    forall|i: int| 0 <= i < files.len() ==> sound(#[trigger] files[i])
}

/// The file at place `i` is the first of `files` that is not sound.
pub open spec fn first_unsound(files: Seq<FileModel>, i: int) -> bool {
    &&& 0 <= i < files.len()
    &&& !sound(files[i])
    &&& forall|j: int| 0 <= j < i ==> sound(#[trigger] files[j])
}

/// The entry that a probe script is registered as.
pub open spec fn entry_of(file: FileModel) -> EntryModel {
    let descriptor = descriptor_of(file.contents.unwrap());
    EntryModel {
        label: descriptor.label,
        description: descriptor.description,
        script: file.path,
        metric_type: descriptor.metric_type,
        fallback: descriptor.fallback,
    }
}

/// The entries that `files` make: each probe script among them registered in
/// turn.
pub open spec fn entries_of(files: Seq<FileModel>) -> Seq<EntryModel>
    decreases files.len(),
{
    if files.len() == 0 {
        Seq::empty()
    } else if selected(files.last().path) {
        registered(entries_of(files.drop_last()), entry_of(files.last()))
    } else {
        entries_of(files.drop_last())
    }
}

/// The number of probe scripts among `files`.
pub open spec fn scripts_among(files: Seq<FileModel>) -> nat
    decreases files.len(),
{
    if files.len() == 0 {
        0
    } else if selected(files.last().path) {
        scripts_among(files.drop_last()) + 1
    } else {
        scripts_among(files.drop_last())
    }
}

/// The registry that `files` make for metrics named with `prefix`: none
/// unless every file is sound.
pub open spec fn built(prefix: Seq<char>, files: Seq<FileModel>) -> Option<RegistryModel> {
    if all_sound(files) {
        Some(RegistryModel { prefix, entries: entries_of(files) })
    } else {
        None
    }
}

/// The registry that a directory makes: none where it could not be listed.
pub open spec fn candidate(prefix: Seq<char>, listed: Option<Seq<FileModel>>) -> Option<
    RegistryModel,
> {
    match listed {
        Some(files) => built(prefix, files),
        None => None,
    }
}

/// `defect` is why `listed` makes no registry: the directory could not be
/// listed, or `defect` names the first file that is not sound and says what
/// is wrong with it.
pub open spec fn explains(listed: Option<Seq<FileModel>>, defect: BuildDefect) -> bool {
    match listed {
        None => defect == BuildDefect::DirectoryUnreadable,
        Some(files) => match defect {
            BuildDefect::DirectoryUnreadable => false,
            BuildDefect::FileUnreadable { file } => {
                &&& first_unsound(files, file as int)
                &&& files[file as int].contents is None
            },
            BuildDefect::DescriptorMalformed { file, line } => {
                &&& first_unsound(files, file as int)
                &&& files[file as int].contents matches Some(text)
                &&& first_malformed(header(text), line as int)
            },
        },
    }
}

/// `result` is what the directory `listed` makes for metrics named with
/// `prefix`: its registry, or the defect that explains why it makes none.
pub open spec fn makes(
    prefix: Seq<char>,
    listed: Option<Seq<FileModel>>,
    result: Result<RegistryModel, BuildDefect>,
) -> bool {
    match result {
        Ok(registry) => candidate(prefix, listed) == Some(registry),
        Err(defect) => candidate(prefix, listed) is None && explains(listed, defect),
    }
}

/// `file` is a probe script that is registered under `label`.
pub open spec fn labelled(file: FileModel, label: Seq<char>) -> bool {
    selected(file.path) && entry_of(file).label == label
}

/// The last of `files` that is registered under `label`.
pub open spec fn last_source(files: Seq<FileModel>, label: Seq<char>) -> Option<FileModel>
    decreases files.len(),
{
    if files.len() == 0 {
        None
    } else if labelled(files.last(), label) {
        Some(files.last())
    } else {
        last_source(files.drop_last(), label)
    }
}

/// No two different files among `files` are registered under one label.
pub open spec fn labels_unshared(files: Seq<FileModel>) -> bool {
    forall|i: int, j: int|
        0 <= i < files.len() && 0 <= j < files.len() && selected((#[trigger] files[i]).path)
            && selected((#[trigger] files[j]).path) && entry_of(files[i]).label == entry_of(
            files[j],
        ).label ==> files[i] == files[j]
}

/// The entries that files make go by distinct labels, and are no more than
/// the probe scripts among the files.
pub proof fn lemma_entries_distinct(files: Seq<FileModel>)
    ensures
        distinct_labels(entries_of(files)),
        entries_of(files).len() <= scripts_among(files),
    decreases files.len(),
{
    if files.len() > 0 {
        lemma_entries_distinct(files.drop_last());
        if selected(files.last().path) {
            lemma_registered_distinct(entries_of(files.drop_last()), entry_of(files.last()));
        }
    }
}

/// Where several probe scripts declare one label, the one listed last is
/// served: a label finds the entry of the last file registered under it.
pub proof fn lemma_found_is_last_source(files: Seq<FileModel>, label: Seq<char>)
    ensures
        found(entries_of(files), label) == match last_source(files, label) {
            Some(file) => Some(entry_of(file)),
            None => None,
        },
    decreases files.len(),
{
    if files.len() > 0 {
        let earlier = files.drop_last();
        lemma_found_is_last_source(earlier, label);
        if selected(files.last().path) {
            lemma_entries_distinct(earlier);
            lemma_registered_found(entries_of(earlier), entry_of(files.last()), label);
        }
    } else {
        if holds(entries_of(files), label) {
            assert(named_at(entries_of(files), label, place_of(entries_of(files), label)));
        }
    }
}

/// The last file registered under a label is one of the files and is
/// registered under that label; there is one wherever any file is.
pub proof fn lemma_last_source_is_member(files: Seq<FileModel>, label: Seq<char>)
    ensures
        match last_source(files, label) {
            Some(file) => files.contains(file) && labelled(file, label),
            None => forall|i: int| 0 <= i < files.len() ==> !labelled(#[trigger] files[i], label),
        },
    decreases files.len(),
{
    if files.len() > 0 {
        let earlier = files.drop_last();
        lemma_last_source_is_member(earlier, label);
        if labelled(files.last(), label) {
            assert(files[files.len() - 1] == files.last());
        } else {
            match last_source(earlier, label) {
                Some(file) => {
                    let k = choose|k: int| 0 <= k < earlier.len() && earlier[k] == file;
                    assert(files[k] == file);
                },
                None => {
                    assert forall|i: int| 0 <= i < files.len() implies !labelled(
                        #[trigger] files[i],
                        label,
                    ) by {
                        if i < earlier.len() {
                            assert(earlier[i] == files[i]);
                        }
                    }
                },
            }
        }
    }
}

/// The labels of a registry are those of the probe scripts it was made
/// from, and no others.
pub proof fn lemma_labels_are_those_of_the_scripts(files: Seq<FileModel>, label: Seq<char>)
    ensures
        holds(entries_of(files), label) <==> exists|i: int|
            0 <= i < files.len() && labelled(#[trigger] files[i], label),
{
    lemma_found_is_last_source(files, label);
    lemma_last_source_is_member(files, label);
    match last_source(files, label) {
        Some(file) => {
            let k = choose|k: int| 0 <= k < files.len() && files[k] == file;
            assert(labelled(files[k], label));
        },
        None => {},
    }
}

/// No two probe scripts among `files` declare one label.
pub open spec fn labels_apart(files: Seq<FileModel>) -> bool {
    forall|i: int, j: int|
        0 <= i < j < files.len() && selected((#[trigger] files[i]).path) && selected(
            (#[trigger] files[j]).path,
        ) ==> entry_of(files[i]).label != entry_of(files[j]).label
}

/// Where no two probe scripts declare one label, the registry has one entry
/// for each probe script.
pub proof fn lemma_one_entry_for_each_script(files: Seq<FileModel>)
    requires
        labels_apart(files),
    ensures
        entries_of(files).len() == scripts_among(files),
    decreases files.len(),
{
    if files.len() > 0 {
        let earlier = files.drop_last();
        assert(labels_apart(earlier)) by {
            assert forall|i: int, j: int|
                0 <= i < j < earlier.len() && selected((#[trigger] earlier[i]).path) && selected(
                    (#[trigger] earlier[j]).path,
                ) implies entry_of(earlier[i]).label != entry_of(earlier[j]).label by {
                assert(earlier[i] == files[i] && earlier[j] == files[j]);
            }
        }
        lemma_one_entry_for_each_script(earlier);
        if selected(files.last().path) {
            let label = entry_of(files.last()).label;
            lemma_labels_are_those_of_the_scripts(earlier, label);
            if holds(entries_of(earlier), label) {
                let i = choose|i: int|
                    0 <= i < earlier.len() && labelled(#[trigger] earlier[i], label);
                assert(earlier[i] == files[i]);
                assert(files[files.len() - 1] == files.last());
            }
            lemma_entries_distinct(earlier);
            lemma_registered_distinct(entries_of(earlier), entry_of(files.last()));
        }
    }
}

/// Idempotence: building twice from one listing of a directory gives the
/// same registry, entry for entry, or fails twice with the same defect.
pub proof fn lemma_build_is_idempotent(
    prefix: Seq<char>,
    listed: Option<Seq<FileModel>>,
    first: Result<RegistryModel, BuildDefect>,
    second: Result<RegistryModel, BuildDefect>,
)
    requires
        makes(prefix, listed, first),
        makes(prefix, listed, second),
    ensures
        first == second,
{
    match (listed, first, second) {
        (Some(files), Err(one), Err(other)) => {
            let i = choose|i: int| first_unsound(files, i);
            assert forall|j: int| first_unsound(files, j) implies j == i by {
                if i < j {
                    assert(!sound(files[i]));
                }
                if j < i {
                    assert(!sound(files[j]));
                }
            }
            match (one, other) {
                (
                    BuildDefect::DescriptorMalformed { file, line },
                    BuildDefect::DescriptorMalformed { file: again, line: other_line },
                ) => {
                    assert(file == again);
                    lemma_first_malformed_once(
                        header(files[file as int].contents.unwrap()),
                        line as int,
                        other_line as int,
                    );
                },
                _ => {},
            }
        },
        _ => {},
    }
}

/// Two listings of the same files find the same source for a label, where no
/// two different files share a label.
proof fn lemma_same_last_source(a: Seq<FileModel>, b: Seq<FileModel>, label: Seq<char>)
    requires
        forall|file: FileModel| a.contains(file) <==> b.contains(file),
        labels_unshared(b),
    ensures
        last_source(a, label) == last_source(b, label),
{
    lemma_last_source_is_member(a, label);
    lemma_last_source_is_member(b, label);
    match last_source(a, label) {
        Some(file) => {
            assert(b.contains(file));
            let j = choose|j: int| 0 <= j < b.len() && b[j] == file;
            assert(labelled(b[j], label));
            match last_source(b, label) {
                Some(other) => {
                    let k = choose|k: int| 0 <= k < b.len() && b[k] == other;
                    assert(labelled(b[k], label));
                },
                None => {},
            }
        },
        None => {
            match last_source(b, label) {
                Some(other) => {
                    assert(a.contains(other));
                    let k = choose|k: int| 0 <= k < a.len() && a[k] == other;
                    assert(labelled(a[k], label));
                },
                None => {},
            }
        },
    }
}

/// Building twice from one directory gives the same registry, even where
/// the directory lists its files in another order the second time: either
/// both builds fail, or both registries hold the same labels; and each label
/// finds the same entry in both, provided that no two different files
/// declare one label (of two that do, the one listed last is served).
pub proof fn lemma_listing_order_is_immaterial(
    prefix: Seq<char>,
    a: Seq<FileModel>,
    b: Seq<FileModel>,
)
    requires
        forall|file: FileModel| a.contains(file) <==> b.contains(file),
    ensures
        built(prefix, a) is Some <==> built(prefix, b) is Some,
        built(prefix, a) matches Some(first) ==> first.prefix == built(prefix, b).unwrap().prefix,
        forall|label: Seq<char>| holds(entries_of(a), label) <==> holds(entries_of(b), label),
        labels_unshared(a) ==> forall|label: Seq<char>|
            found(entries_of(a), label) == found(entries_of(b), label),
{
    assert(all_sound(a) <==> all_sound(b)) by {
        if all_sound(a) {
            assert forall|i: int| 0 <= i < b.len() implies sound(#[trigger] b[i]) by {
                assert(a.contains(b[i]));
                let k = choose|k: int| 0 <= k < a.len() && a[k] == b[i];
                assert(sound(a[k]));
            }
        }
        if all_sound(b) {
            assert forall|i: int| 0 <= i < a.len() implies sound(#[trigger] a[i]) by {
                assert(b.contains(a[i]));
                let k = choose|k: int| 0 <= k < b.len() && b[k] == a[i];
                assert(sound(b[k]));
            }
        }
    }
    assert forall|label: Seq<char>| holds(entries_of(a), label) <==> holds(
        entries_of(b),
        label,
    ) by {
        lemma_found_is_last_source(a, label);
        lemma_found_is_last_source(b, label);
        lemma_last_source_is_member(a, label);
        lemma_last_source_is_member(b, label);
        match last_source(a, label) {
            Some(source) => {
                assert(b.contains(source));
                let k = choose|k: int| 0 <= k < b.len() && b[k] == source;
                assert(labelled(b[k], label));
            },
            None => {},
        }
        match last_source(b, label) {
            Some(source) => {
                assert(a.contains(source));
                let k = choose|k: int| 0 <= k < a.len() && a[k] == source;
                assert(labelled(a[k], label));
            },
            None => {},
        }
    }
    if labels_unshared(a) {
        assert(labels_unshared(b)) by {
            assert forall|i: int, j: int|
                0 <= i < b.len() && 0 <= j < b.len() && selected((#[trigger] b[i]).path)
                    && selected((#[trigger] b[j]).path) && entry_of(b[i]).label == entry_of(
                    b[j],
                ).label implies b[i] == b[j] by {
                assert(a.contains(b[i]));
                assert(a.contains(b[j]));
                let m = choose|m: int| 0 <= m < a.len() && a[m] == b[i];
                let n = choose|n: int| 0 <= n < a.len() && a[n] == b[j];
                assert(a[m] == a[n]);
            }
        }
        assert forall|label: Seq<char>| found(entries_of(a), label) == found(
            entries_of(b),
            label,
        ) by {
            lemma_found_is_last_source(a, label);
            lemma_found_is_last_source(b, label);
            lemma_same_last_source(a, b, label);
        }
    }
}

/// Whether `path` is that of a probe script.
pub fn is_descriptor_path(path: &str) -> (b: bool)
    ensures
        b == selected(path@),
{
    let text = chars_of(path);
    let whole = Span { start: 0, end: text.len() };
    assert(whole.of(text@) == path@);
    ends_with(&text, whole, &chars_of(".prom"))
}

/// Builds the registry of a directory, for metrics named with `prefix`.
pub fn get_registry(prefix: &str, directory: &Directory) -> (result: Result<Loaded, BuildDefect>)
    ensures
        makes(
            prefix@,
            directory.files(),
            match result {
                Ok(loaded) => Ok(loaded.registry@),
                Err(defect) => Err(defect),
            },
        ),
        result matches Ok(loaded) ==> {
            &&& directory.files() matches Some(files)
            &&& loaded.loaded == scripts_among(files)
            &&& loaded.registry@.entries.len() <= loaded.loaded
        },
{
    let files = match directory {
        Directory::Unreadable => {
            return Err(BuildDefect::DirectoryUnreadable);
        },
        Directory::Listed(files) => files,
    };
    let ghost all = listing(files@);
    let mut registry = Registry::with_prefix(prefix.to_owned());
    assert(registry@.entries =~= entries_of(all.take(0)));
    let mut loaded: usize = 0;
    let mut i: usize = 0;
    while i < files.len()
        invariant
            *directory == Directory::Listed(*files),
            all == listing(files@),
            i <= files@.len(),
            forall|j: int| 0 <= j < i ==> sound(#[trigger] all[j]),
            registry@.prefix == prefix@,
            registry@.entries == entries_of(all.take(i as int)),
            loaded == scripts_among(all.take(i as int)),
            loaded <= i,
        decreases files@.len() - i,
    {
        let file = &files[i];
        proof {
            assert(all[i as int] == file@);
            assert(all.take(i + 1).drop_last() == all.take(i as int));
            assert(all.take(i + 1).last() == all[i as int]);
        }
        if is_descriptor_path(file.path.as_str()) {
            let text = match &file.contents {
                None => {
                    return Err(BuildDefect::FileUnreadable { file: i });
                },
                Some(text) => text,
            };
            let descriptor = match read_infos(text.as_str()) {
                Err(ParseDefect::MalformedFallback { line }) => {
                    proof {
                        let h = header(text@);
                        assert(crate::descriptor::malformed(h[line as int]));
                    }
                    return Err(BuildDefect::DescriptorMalformed { file: i, line });
                },
                Ok(descriptor) => descriptor,
            };
            let collector = ScraperScript {
                script: file.path.clone(),
                metric_type: descriptor.metric_type,
                failure_value: descriptor.fallback,
            };
            registry.register(descriptor.label, descriptor.description, collector);
            loaded += 1;
        }
        i += 1;
    }
    assert(all.take(i as int) == all);
    proof {
        lemma_entries_distinct(all);
    }
    Ok(Loaded { registry, loaded })
}

} // verus!

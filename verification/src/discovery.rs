//! Which file of a directory configures it.

use vstd::prelude::*;

use crate::components::{is_plain_name, law_entry_of_directory, law_file_name_is_last};
use crate::path::{joined, name_of, parts, texts, FsPath};
use crate::text::same_bytes;

verus! {

/// What a directory entry is.
#[derive(Clone, Copy, Debug, PartialEq, Eq, Structural)]
pub enum FileKind {
    /// A directory.
    Directory,
    /// A regular file.
    Regular,
    /// Anything else: a symbolic link, a socket and so on.
    Other,
}

/// One entry of a directory listing; the kind is missing where it could not be found out.
#[derive(Debug)]
pub struct ListedEntry {
    pub name: Vec<u8>,
    pub kind: Option<FileKind>,
}

/// A configuration file, and which of the supported names it has.
#[derive(Debug)]
pub struct DiscoveredConfigFile {
    pub path: FsPath,
    pub kind: usize,
}

/// A configuration file, as contracts speak of it.
pub struct DiscoveredView {
    pub path: Seq<u8>,
    pub kind: int,
}

impl View for DiscoveredConfigFile {
    type V = DiscoveredView;

    open spec fn view(&self) -> DiscoveredView {
        DiscoveredView { path: self.path@, kind: self.kind as int }
    }
}

/// More than one configuration file in one directory.
#[derive(Debug)]
pub struct ConfigConflict {
    pub dir: FsPath,
    pub files: Vec<DiscoveredConfigFile>,
}

/// The files that a list holds.
pub open spec fn discovered(v: Seq<DiscoveredConfigFile>) -> Seq<DiscoveredView> {
    Seq::new(v.len(), |i: int| v[i]@)
}

/// Each file is taken as it is: where it stands, and which of the names it has.
pub proof fn law_discovered_are_all(v: Seq<DiscoveredConfigFile>)
    ensures
        discovered(v).len() == v.len(),
        forall|i: int|
            0 <= i < v.len() ==> (#[trigger] discovered(v)[i]).path == v[i].path@ && discovered(
                v,
            )[i].kind == v[i].kind,
{
}

/// Where `name` first stands in `names`, counted from `from`.
pub open spec fn name_index(names: Seq<Seq<u8>>, name: Seq<u8>, from: int) -> Option<int>
    decreases names.len() - from,
{
    if from < 0 || from >= names.len() {
        None
    } else if names[from] == name {
        Some(from)
    } else {
        name_index(names, name, from + 1)
    }
}

/// The configuration file at `path`: a path whose last component is a supported name.
pub open spec fn config_at(names: Seq<Seq<u8>>, path: Seq<u8>) -> Option<DiscoveredView> {
    match name_of(path) {
        Some(name) => match name_index(names, name, 0) {
            Some(kind) => Some(DiscoveredView { path, kind }),
            None => None,
        },
        None => None,
    }
}

/// The configuration file that an entry of `dir` is, if it is one: a regular file with a
/// supported name.
pub open spec fn config_entry(
    names: Seq<Seq<u8>>,
    dir: Seq<u8>,
    entry: ListedEntry,
) -> Option<DiscoveredView> {
    if names.contains(entry.name@) && entry.kind == Some(FileKind::Regular) {
        config_at(names, joined(dir, entry.name@))
    } else {
        None
    }
}

/// The configuration files among the entries of `dir`, in the order of the listing.
pub open spec fn config_entries(
    names: Seq<Seq<u8>>,
    dir: Seq<u8>,
    entries: Seq<ListedEntry>,
) -> Seq<DiscoveredView>
    decreases entries.len(),
{
    if entries.len() == 0 {
        Seq::empty()
    } else {
        let before = config_entries(names, dir, entries.drop_last());
        match config_entry(names, dir, entries.last()) {
            Some(file) => before.push(file),
            None => before,
        }
    }
}

proof fn lemma_name_index(names: Seq<Seq<u8>>, name: Seq<u8>, from: int)
    requires
        0 <= from <= names.len(),
    ensures
        match name_index(names, name, from) {
            Some(i) => from <= i < names.len() && names[i] == name,
            None => forall|j: int| from <= j < names.len() ==> names[j] != name,
        },
    decreases names.len() - from,
{
    if from < names.len() && names[from] != name {
        lemma_name_index(names, name, from + 1);
    }
}

/// The position of `name` in `names`.
fn find_name(names: &Vec<Vec<u8>>, name: &[u8]) -> (found: Option<usize>)
    ensures
        match found {
            Some(i) => name_index(texts(names@), name@, 0) == Some(i as int),
            None => name_index(texts(names@), name@, 0) is None,
        },
{
    let mut i: usize = 0;
    while i < names.len()
        invariant
            i <= names@.len(),
            name_index(texts(names@), name@, 0) == name_index(texts(names@), name@, i as int),
        decreases names@.len() - i,
    {
        if same_bytes(names[i].as_slice(), name) {
            return Some(i);
        }
        i = i + 1;
    }
    None
}

/// The configuration file at `path`, where its name is one of `names`.
pub fn discover_config_file(names: &Vec<Vec<u8>>, path: &FsPath) -> (file: Option<
    DiscoveredConfigFile,
>)
    ensures
        match (file, config_at(texts(names@), path@)) {
            (Some(f), Some(v)) => f@ == v,
            (None, None) => true,
            _ => false,
        },
{
    match path.file_name() {
        Some(name) => match find_name(names, name.as_slice()) {
            Some(kind) => Some(DiscoveredConfigFile { path: path.duplicate(), kind }),
            None => None,
        },
        None => None,
    }
}

/// The one configuration file of `dir`, from a listing of the directory; none where the
/// directory could not be read.
///
/// Only regular files count: a directory or a symbolic link with a supported name is passed
/// over.
pub fn find_unique_config_by_readdir(
    names: &Vec<Vec<u8>>,
    dir: &FsPath,
    listing: &Option<Vec<ListedEntry>>,
) -> (found: Result<Option<DiscoveredConfigFile>, ConfigConflict>)
    ensures
        match listing {
            None => found is Ok && found->Ok_0 is None,
            Some(entries) => {
                let files = config_entries(texts(names@), dir@, entries@);
                match found {
                    Ok(None) => files.len() == 0,
                    Ok(Some(file)) => files.len() == 1 && file@ == files[0],
                    Err(conflict) => {
                        &&& files.len() > 1
                        &&& conflict.dir@ == dir@
                        &&& discovered(conflict.files@) == files
                    },
                }
            },
        },
{
    let entries = match listing {
        None => {
            return Ok(None);
        },
        Some(entries) => entries,
    };
    let mut files: Vec<DiscoveredConfigFile> = Vec::new();
    let mut i: usize = 0;
    let ghost known = texts(names@);
    while i < entries.len()
        invariant
            i <= entries@.len(),
            known == texts(names@),
            discovered(files@) == config_entries(known, dir@, entries@.take(i as int)),
        decreases entries@.len() - i,
    {
        let entry: &ListedEntry = &entries[i];
        let ghost before = discovered(files@);
        assert(entries@.take(i + 1).drop_last() == entries@.take(i as int));
        let named: Option<usize> = find_name(names, entry.name.as_slice());
        proof {
            lemma_name_index(known, entry.name@, 0);
        }
        if let Some(_) = named {
            if let Some(FileKind::Regular) = entry.kind {
                if let Some(file) = discover_config_file(names, &dir.join(entry.name.as_slice())) {
                    files.push(file);
                    assert(discovered(files@) == before.push(file@));
                }
            }
        }
        i = i + 1;
    }
    assert(entries@.take(entries@.len() as int) == entries@);
    assert(discovered(files@).len() == files@.len());
    if files.len() == 0 {
        Ok(None)
    } else if files.len() == 1 {
        let ghost all = discovered(files@);
        let only: Option<DiscoveredConfigFile> = files.pop();
        match only {
            Some(file) => {
                assert(all[0] == file@);
                Ok(Some(file))
            },
            None => Ok(None),
        }
    } else {
        Err(ConfigConflict { dir: dir.duplicate(), files })
    }
}

/// A path is that of a configuration file if and only if its last component is a supported name,
/// wherever it stands; which of the names it has is the first that is the same.
pub proof fn law_config_known_by_name(names: Seq<Seq<u8>>, path: Seq<u8>)
    ensures
        config_at(names, path) is Some <==> parts(path).len() > 0 && is_plain_name(
            parts(path).last(),
        ) && names.contains(parts(path).last()),
        config_at(names, path) matches Some(file) ==> {
            &&& file.path == path
            &&& 0 <= file.kind < names.len() && names[file.kind] == parts(path).last()
            &&& forall|j: int| 0 <= j < file.kind ==> names[j] != parts(path).last()
        },
{
    law_file_name_is_last(path);
    if let Some(name) = name_of(path) {
        lemma_name_index(names, name, 0);
        lemma_first_name(names, name, 0);
    }
}

/// No name before the position found is the same.
proof fn lemma_first_name(names: Seq<Seq<u8>>, name: Seq<u8>, from: int)
    requires
        0 <= from <= names.len(),
    ensures
        name_index(names, name, from) matches Some(i) ==> forall|j: int|
            from <= j < i ==> names[j] != name,
    decreases names.len() - from,
{
    if from < names.len() && names[from] != name {
        lemma_first_name(names, name, from + 1);
    }
}

/// Whether an entry is a regular file with a supported name.
pub open spec fn is_config_entry(names: Seq<Seq<u8>>, entry: ListedEntry) -> bool {
    entry.kind == Some(FileKind::Regular) && names.contains(entry.name@)
}

/// Every regular file with a supported name counts, whatever else is listed and wherever in the
/// listing it stands, and nothing else does; they come in the order of the listing, and each is
/// the file of its name in the directory.
pub proof fn law_every_config_counts(
    names: Seq<Seq<u8>>,
    dir: Seq<u8>,
    entries: Seq<ListedEntry>,
)
    requires
        forall|i: int| 0 <= i < names.len() ==> is_plain_name(#[trigger] names[i]),
    ensures
        config_entries(names, dir, entries).map_values(|f: DiscoveredView| f.path)
            == entries.filter(|e: ListedEntry| is_config_entry(names, e)).map_values(
            |e: ListedEntry| joined(dir, e.name@),
        ),
        forall|i: int|
            0 <= i < entries.len() && is_config_entry(names, #[trigger] entries[i]) ==> exists|
                j: int,
            |
                0 <= j < config_entries(names, dir, entries).len() && (
                #[trigger] config_entries(names, dir, entries)[j]).path == joined(
                    dir,
                    entries[i].name@,
                ),
        config_entries(names, dir, entries).len() == 0 <==> forall|i: int|
            0 <= i < entries.len() ==> !is_config_entry(names, #[trigger] entries[i]),
        forall|j: int|
            0 <= j < config_entries(names, dir, entries).len() ==> {
                let file = #[trigger] config_entries(names, dir, entries)[j];
                0 <= file.kind < names.len() && file.path == joined(dir, names[file.kind])
            },
    decreases entries.len(),
{
    reveal(Seq::filter);
    let files = config_entries(names, dir, entries);
    let wanted = |e: ListedEntry| is_config_entry(names, e);
    let place = |e: ListedEntry| joined(dir, e.name@);
    let spot = |f: DiscoveredView| f.path;
    if entries.len() == 0 {
        assert(files.map_values(spot) =~= entries.filter(wanted).map_values(place));
    } else {
        let before = entries.drop_last();
        let last = entries.last();
        law_every_config_counts(names, dir, before);
        let earlier = config_entries(names, dir, before);
        assert(last == entries[entries.len() - 1]);
        assert forall|i: int| 0 <= i < before.len() implies before[i] == entries[i] by {}
        if is_config_entry(names, last) {
            let k: int = choose|k: int| 0 <= k < names.len() && names[k] == last.name@;
            assert(is_plain_name(names[k]));
            law_entry_of_directory(dir, last.name@);
            law_config_known_by_name(names, joined(dir, last.name@));
            assert(config_at(names, joined(dir, last.name@)) is Some);
            let file = config_at(names, joined(dir, last.name@))->Some_0;
            assert(files == earlier.push(file));
            assert(files[earlier.len() as int].path == joined(dir, last.name@));
            assert forall|i: int|
                0 <= i < entries.len() && is_config_entry(names, #[trigger] entries[i]) implies exists|
                j: int,
            |
                0 <= j < files.len() && (#[trigger] files[j]).path == joined(
                    dir,
                    entries[i].name@,
                ) by {
                if i < before.len() {
                    assert(is_config_entry(names, before[i]));
                    let j: int = choose|j: int|
                        0 <= j < earlier.len() && (#[trigger] earlier[j]).path == joined(
                            dir,
                            before[i].name@,
                        );
                    assert(files[j] == earlier[j]);
                } else {
                    assert(files[earlier.len() as int].path == joined(dir, entries[i].name@));
                }
            }
            assert(entries.filter(wanted) == before.filter(wanted).push(last));
            assert(files.map_values(spot) =~= earlier.map_values(spot).push(place(last)));
            assert(entries.filter(wanted).map_values(place) =~= before.filter(wanted).map_values(
                place,
            ).push(place(last)));
            assert forall|j: int| 0 <= j < files.len() implies ({
                let file = #[trigger] files[j];
                0 <= file.kind < names.len() && file.path == joined(dir, names[file.kind])
            }) by {
                if j < earlier.len() {
                    assert(files[j] == earlier[j]);
                }
            }
        } else {
            assert(files == earlier);
            assert(entries.filter(wanted) == before.filter(wanted));
            if files.len() == 0 {
                assert forall|i: int| 0 <= i < entries.len() implies !is_config_entry(
                    names,
                    #[trigger] entries[i],
                ) by {
                    if i < before.len() {
                        assert(!is_config_entry(names, before[i]));
                    }
                }
            }
            assert forall|i: int|
                0 <= i < entries.len() && is_config_entry(names, #[trigger] entries[i]) implies exists|
                j: int,
            |
                0 <= j < files.len() && (#[trigger] files[j]).path == joined(
                    dir,
                    entries[i].name@,
                ) by {
                assert(is_config_entry(names, before[i]));
            }
        }
    }
}

/// Only regular files with a supported name count: where a directory has none, it has no
/// configuration.
pub proof fn law_only_named_regular_files_count(
    names: Seq<Seq<u8>>,
    dir: Seq<u8>,
    entries: Seq<ListedEntry>,
)
    requires
        forall|i: int|
            0 <= i < entries.len() ==> (#[trigger] entries[i]).kind != Some(FileKind::Regular)
                || !names.contains(entries[i].name@),
    ensures
        config_entries(names, dir, entries).len() == 0,
    decreases entries.len(),
{
    if entries.len() > 0 {
        let before = entries.drop_last();
        assert forall|i: int| 0 <= i < before.len() implies (#[trigger] before[i]).kind != Some(
            FileKind::Regular,
        ) || !names.contains(before[i].name@) by {
            assert(before[i] == entries[i]);
        }
        law_only_named_regular_files_count(names, dir, before);
        assert(entries.last() == entries[entries.len() - 1]);
    }
}

} // verus!

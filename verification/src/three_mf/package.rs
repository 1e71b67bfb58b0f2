//! 3MF packages: zip archives with one or more model files, one of which is the root model.
use std::io::Cursor;
use vstd::prelude::*;
use vstd::utf8::encode_utf8;
use zip::result::ZipError;
use zip::ZipArchive;

use super::archive::{
    archive_entries, entries, entry_count, entry_with_key, open_archive, open_entry, open_named,
    pending, EntryView, OpenEntry,
};
use super::attributes::{attribute, attribute_value, Fault, ModelError};
use super::model::{model_value, parse_model, ModelFile, ModelView};
use super::path::{normalize_path, normalized};
use super::xml::{
    is_name, named, Element, ElementView, EventView, XmlEvent,
};
use crate::text;
use crate::text::lowercase;

verus! {

/// Where the root model is when nothing else is said.
pub const DEFAULT_ROOT_MODEL: &'static str = "3d/3dmodel.model";

/// A model file of a package.
pub struct File {
    /// The normalized path.
    pub path: String,
    pub model: ModelFile,
}

/// The model of a `File`.
pub struct FileView {
    pub path: Seq<char>,
    pub model: ModelView,
}

impl View for File {
    type V = FileView;

    open spec fn view(&self) -> FileView {
        FileView { path: self.path@, model: self.model@ }
    }
}

/// The models of several files.
pub open spec fn files_view(files: Seq<File>) -> Seq<FileView> {
    files.map_values(|f: File| f@)
}

/// A 3MF package.
pub struct Package {
    pub files: Vec<File>,
    /// Which of the files is the root model.
    pub root: usize,
}

/// Why a package cannot be read.
pub enum PackageError {
    /// It is no zip archive.
    Archive(ZipError),
    /// A file in it cannot be opened.
    Entry(ZipError),
    /// A model file is not valid, or cannot be read.
    Model { path: String, error: ModelError },
    /// The package relationships are not valid, or cannot be read.
    Relationships(ModelError),
    /// There is no root model.
    NoRoot,
}

/// What a `PackageError` is about.
pub enum PackageFault {
    Archive,
    Entry,
    Model { path: Seq<char>, fault: Fault },
    Relationships(Fault),
    NoRoot,
}

impl View for PackageError {
    type V = PackageFault;

    open spec fn view(&self) -> PackageFault {
        match self {
            PackageError::Archive(_) => PackageFault::Archive,
            PackageError::Entry(_) => PackageFault::Entry,
            PackageError::Model { path, error } => PackageFault::Model {
                path: path@,
                fault: error@,
            },
            PackageError::Relationships(error) => PackageFault::Relationships(error@),
            PackageError::NoRoot => PackageFault::NoRoot,
        }
    }
}

// ---------------------------------------------------------------------------
// The model files
// ---------------------------------------------------------------------------

/// The position of the file with a path.
pub open spec fn file_at(files: Seq<FileView>, path: Seq<char>) -> Option<int>
    decreases files.len(),
{
    if files.len() == 0 {
        None
    } else if file_at(files.drop_last(), path) is Some {
        file_at(files.drop_last(), path)
    } else if files.last().path == path {
        Some(files.len() - 1)
    } else {
        None
    }
}

/// Files with one more, which replaces one with the same path.
pub open spec fn with_file(files: Seq<FileView>, file: FileView) -> Seq<FileView> {
    match file_at(files, file.path) {
        Some(i) => files.update(i, file),
        None => files.push(file),
    }
}

/// Whether a file of the archive is a model file.
pub open spec fn is_model_name(name: Seq<char>) -> bool {
    ".model"@.is_suffix_of(lowercase(name))
}

/// Files with one more model file, of which the events can be read.
pub open spec fn with_model(
    files: Seq<FileView>,
    name: Seq<char>,
    events: Seq<Option<EventView>>,
) -> Result<Seq<FileView>, PackageFault> {
    let path = normalized(name);
    match model_value(events) {
        Err(fault) => Err(PackageFault::Model { path, fault }),
        Ok(model) => Ok(with_file(files, FileView { path, model })),
    }
}

/// The model files among the first files of an archive.
pub open spec fn model_files(es: Seq<EntryView>, n: int) -> Result<Seq<FileView>, PackageFault>
    decreases n,
{
    if n <= 0 {
        Ok(Seq::empty())
    } else {
        match model_files(es, n - 1) {
            Err(fault) => Err(fault),
            Ok(files) => {
                let e = es[n - 1];
                if !e.opens {
                    Err(PackageFault::Entry)
                } else if !is_model_name(e.name) {
                    Ok(files)
                } else {
                    with_model(files, e.name, e.events)
                }
            },
        }
    }
}

/// Whether no two files have the same path.
pub open spec fn distinct_paths(files: Seq<FileView>) -> bool {
    forall|i: int, j: int|
        0 <= i < files.len() && 0 <= j < files.len() && #[trigger] files[i].path
            == #[trigger] files[j].path ==> i == j
}

pub(super) proof fn lemma_file_at(files: Seq<FileView>, path: Seq<char>)
    ensures
        match file_at(files, path) {
            Some(i) => 0 <= i < files.len() && files[i].path == path && forall|j: int|
                0 <= j < i ==> (#[trigger] files[j]).path != path,
            None => forall|j: int| 0 <= j < files.len() ==> (#[trigger] files[j]).path != path,
        },
    decreases files.len(),
{
    if files.len() > 0 {
        lemma_file_at(files.drop_last(), path);
        let rest = files.drop_last();
        assert forall|j: int| 0 <= j < rest.len() implies rest[j] == #[trigger] files[j] by {}
    }
}

/// Finds the file with a path.
pub(crate) fn find_file(files: &Vec<File>, path: &str) -> (r: Option<usize>)
    ensures
        match r {
            Some(i) => i < files@.len() && file_at(files_view(files@), path@) == Some(i as int),
            None => file_at(files_view(files@), path@) is None,
        },
{
    let ghost all = files_view(files@);
    proof {
        lemma_file_at(all, path@);
    }
    for i in 0..files.len()
        invariant
            all == files_view(files@),
            match file_at(all, path@) {
                Some(i) => 0 <= i < all.len() && all[i].path == path@ && forall|j: int|
                    0 <= j < i ==> (#[trigger] all[j]).path != path@,
                None => forall|j: int| 0 <= j < all.len() ==> (#[trigger] all[j]).path != path@,
            },
            forall|j: int| 0 <= j < i ==> (#[trigger] all[j]).path != path@,
    {
        assert(all[i as int] == files@[i as int]@);
        if files[i].path.as_str().eq(path) {
            return Some(i);
        }
    }
    None
}

/// Adds a file, which replaces one with the same path.
fn insert_file(files: &mut Vec<File>, file: File)
    ensures
        files_view(final(files)@) == with_file(files_view(old(files)@), file@),
{
    let ghost before = files_view(files@);
    let ghost added = file@;
    match find_file(files, file.path.as_str()) {
        Some(i) => {
            files.set(i, file);
            assert(files_view(files@) =~= before.update(i as int, added));
        },
        None => {
            files.push(file);
            assert(files_view(files@) =~= before.push(added));
        },
    }
}

proof fn lemma_model_files_fault(es: Seq<EntryView>, n: int, m: int)
    requires
        0 <= n <= m,
        model_files(es, n) is Err,
    ensures
        model_files(es, m) == model_files(es, n),
    decreases m,
{
    if n < m {
        lemma_model_files_fault(es, n, m - 1);
    }
}

/// Adds a model file, which replaces one with the same path.
pub fn add_model_file(files: &mut Vec<File>, name: &str, file: OpenEntry) -> (r: Result<
    (),
    PackageError,
>)
    requires
        pending(file).len() > 0,
    ensures
        ({
            let after = with_model(files_view(old(files)@), name@, pending(file));
            match r {
                Ok(_) => after == Ok::<_, PackageFault>(files_view(final(files)@)),
                Err(error) => after == Err::<Seq<FileView>, _>(error@) && final(files)@
                    == old(files)@,
            }
        }),
{
    let path = normalize_path(name);
    match parse_model(file) {
        Ok(model) => {
            insert_file(files, File { path, model });
            Ok(())
        },
        Err(error) => Err(PackageError::Model { path, error }),
    }
}

/// Reads the model files of an archive.
fn read_model_files<'a>(zip: &mut ZipArchive<Cursor<&'a [u8]>>) -> (r: Result<
    Vec<File>,
    PackageError,
>)
    ensures
        entries(*final(zip)) == entries(*old(zip)),
        match r {
            Ok(files) => model_files(entries(*old(zip)), entries(*old(zip)).len() as int) == Ok::<
                _,
                PackageFault,
            >(files_view(files@)),
            Err(error) => model_files(entries(*old(zip)), entries(*old(zip)).len() as int)
                == Err::<Seq<FileView>, _>(error@),
        },
{
    let ghost es = entries(*zip);
    let mut files: Vec<File> = Vec::new();
    assert(files_view(files@) =~= Seq::empty());
    let count = entry_count(zip);
    for i in 0..count
        invariant
            es == entries(*old(zip)),
            entries(*zip) == es,
            count == es.len(),
            model_files(es, i as int) == Ok::<_, PackageFault>(files_view(files@)),
    {
        proof {
            if model_files(es, i + 1) is Err {
                lemma_model_files_fault(es, i + 1, es.len() as int);
            }
        }
        let file = match open_entry(zip, i) {
            Ok(file) => file,
            Err(error) => return Err(PackageError::Entry(error)),
        };
        let name = file.name();
        let lower = text::to_lowercase(name.as_str());
        if text::ends_with(lower.as_str(), ".model") {
            if let Err(error) = add_model_file(&mut files, name.as_str(), file) {
                return Err(error);
            }
        }
    }
    Ok(files)
}

// ---------------------------------------------------------------------------
// The root model
// ---------------------------------------------------------------------------

/// The root model that a relationship names, as far as there is such a file.
pub open spec fn related_model(files: Seq<FileView>, e: ElementView) -> Result<Option<int>, Fault> {
    match attribute_value(e, "Type"@) {
        Err(fault) => Err(fault),
        Ok(kind) => match attribute_value(e, "Target"@) {
            Err(fault) => Err(fault),
            Ok(target) => if kind is Some && "/3dmodel"@.is_suffix_of(kind->0) && target is Some {
                Ok(file_at(files, normalized(target->0)))
            } else {
                Ok(None)
            },
        },
    }
}

/// The root model that the rest of the package relationships lead to.
pub open spec fn root_from(events: Seq<Option<EventView>>, files: Seq<FileView>) -> Result<
    Option<int>,
    PackageFault,
>
    decreases events.len(),
{
    if events.len() == 0 {
        Ok(None)
    } else {
        match events[0] {
            None => Err(PackageFault::Relationships(Fault::Xml)),
            Some(EventView::End) => Ok(None),
            Some(EventView::Open { element, .. }) => if is_name(element.name, "Relationship"@) {
                match related_model(files, element) {
                    Err(fault) => Err(PackageFault::Relationships(fault)),
                    Ok(Some(i)) => Ok(Some(i)),
                    Ok(None) => root_from(events.skip(1), files),
                }
            } else {
                root_from(events.skip(1), files)
            },
            Some(_) => root_from(events.skip(1), files),
        }
    }
}

/// The root model when the package relationships name none: the one in the standard location,
/// or the only one.
pub open spec fn fallback_root(files: Seq<FileView>) -> Result<int, PackageFault> {
    match file_at(files, DEFAULT_ROOT_MODEL@) {
        Some(i) => Ok(i),
        None => if files.len() == 1 {
            Ok(0)
        } else {
            Err(PackageFault::NoRoot)
        },
    }
}

/// The root model of a package.
pub open spec fn root_model(es: Seq<EntryView>, files: Seq<FileView>) -> Result<int, PackageFault> {
    match entry_with_key(es, encode_utf8("_rels/.rels"@)) {
        Some(rels) => if rels.opens {
            match root_from(rels.events, files) {
                Err(fault) => Err(fault),
                Ok(Some(i)) => Ok(i),
                Ok(None) => fallback_root(files),
            }
        } else {
            fallback_root(files)
        },
        None => fallback_root(files),
    }
}

/// Finds the root model that a relationship names, as far as there is such a file.
pub fn relationship_root(files: &Vec<File>, e: &Element) -> (r: Result<Option<usize>, ModelError>)
    ensures
        match r {
            Ok(Some(i)) => i < files@.len() && related_model(files_view(files@), e@) == Ok::<
                _,
                Fault,
            >(Some(i as int)),
            Ok(None) => related_model(files_view(files@), e@) == Ok::<_, Fault>(None::<int>),
            Err(error) => related_model(files_view(files@), e@) == Err::<Option<int>, _>(error@),
        },
{
    let kind = match attribute(e, "Type") {
        Ok(kind) => kind,
        Err(error) => return Err(error),
    };
    let target = match attribute(e, "Target") {
        Ok(target) => target,
        Err(error) => return Err(error),
    };
    if let (Some(kind), Some(target)) = (kind, target) {
        if text::ends_with(kind.as_str(), "/3dmodel") {
            let path = normalize_path(target.as_str());
            return Ok(find_file(files, path.as_str()));
        }
    }
    Ok(None)
}

/// Finds the root model in the package relationships.
pub fn related_root(rels: OpenEntry, files: &Vec<File>) -> (r: Result<
    Option<usize>,
    PackageError,
>)
    requires
        pending(rels).len() > 0,
    ensures
        ({
            let root = root_from(pending(rels), files_view(files@));
            match r {
                Ok(Some(i)) => i < files@.len() && root == Ok::<_, PackageFault>(Some(i as int)),
                Ok(None) => root == Ok::<_, PackageFault>(None::<int>),
                Err(error) => root == Err::<Option<int>, _>(error@),
            }
        }),
{
    let ghost all = files_view(files@);
    let mut reader = rels;
    loop
        invariant
            all == files_view(files@),
            pending(reader).len() > 0,
            root_from(pending(rels), all) == root_from(pending(reader), all),
        decreases pending(reader).len(),
    {
        let event = match reader.next_event() {
            Ok(event) => event,
            Err(error) => return Err(PackageError::Relationships(ModelError::Xml(error))),
        };
        match event {
            XmlEvent::Open { element, .. } => if named(element.name.as_slice(), "Relationship") {
                match relationship_root(files, &element) {
                    Err(error) => return Err(PackageError::Relationships(error)),
                    Ok(Some(i)) => return Ok(Some(i)),
                    Ok(None) => {},
                }
            },
            XmlEvent::End => {
                return Ok(None);
            },
            _ => {},
        }
    }
}

/// Finds the root model from the package relationships, falling back to the standard location.
fn find_root_model<'a>(zip: &mut ZipArchive<Cursor<&'a [u8]>>, files: &Vec<File>) -> (r: Result<
    usize,
    PackageError,
>)
    ensures
        match r {
            Ok(i) => i < files@.len() && root_model(entries(*old(zip)), files_view(files@))
                == Ok::<_, PackageFault>(i as int),
            Err(error) => root_model(entries(*old(zip)), files_view(files@)) == Err::<int, _>(
                error@,
            ),
        },
{
    if let Ok(rels) = open_named(zip, "_rels/.rels") {
        match related_root(rels, files) {
            Err(error) => return Err(error),
            Ok(Some(i)) => return Ok(i),
            Ok(None) => {},
        }
    }
    match find_file(files, DEFAULT_ROOT_MODEL) {
        Some(i) => Ok(i),
        None => if files.len() == 1 {
            Ok(0)
        } else {
            Err(PackageError::NoRoot)
        },
    }
}

// ---------------------------------------------------------------------------
// The package
// ---------------------------------------------------------------------------

/// The model files of a package, and which of them is the root model.
pub open spec fn package_value(bytes: Seq<u8>) -> Result<(Seq<FileView>, int), PackageFault> {
    match archive_entries(bytes) {
        None => Err(PackageFault::Archive),
        Some(es) => match model_files(es, es.len() as int) {
            Err(fault) => Err(fault),
            Ok(files) => match root_model(es, files) {
                Err(fault) => Err(fault),
                Ok(root) => Ok((files, root)),
            },
        },
    }
}

/// Reads a 3MF package.
pub fn read_package(bytes: &[u8]) -> (r: Result<Package, PackageError>)
    ensures
        match r {
            Ok(package) => package.root < package.files@.len() && package_value(bytes@) == Ok::<
                _,
                PackageFault,
            >((files_view(package.files@), package.root as int)),
            Err(error) => package_value(bytes@) == Err::<(Seq<FileView>, int), _>(error@),
        },
{
    let mut zip = match open_archive(bytes) {
        Ok(zip) => zip,
        Err(error) => return Err(PackageError::Archive(error)),
    };
    let files = match read_model_files(&mut zip) {
        Ok(files) => files,
        Err(error) => return Err(error),
    };
    match find_root_model(&mut zip, &files) {
        Ok(root) => Ok(Package { files, root }),
        Err(error) => Err(error),
    }
}

// ---------------------------------------------------------------------------
// Laws
// ---------------------------------------------------------------------------

/// The model files of a package have different paths, so a path leads to at most one of them.
pub proof fn law_distinct_paths(es: Seq<EntryView>, n: int)
    ensures
        model_files(es, n) matches Ok(files) ==> distinct_paths(files),
    decreases n,
{
    if n > 0 {
        law_distinct_paths(es, n - 1);
        if let Ok(files) = model_files(es, n - 1) {
            lemma_file_at(files, normalized(es[n - 1].name));
        }
    }
}

/// The root model of a package is one of its model files.
pub proof fn law_root_exists(bytes: Seq<u8>)
    ensures
        package_value(bytes) matches Ok((files, root)) ==> 0 <= root < files.len(),
{
    if let Some(es) = archive_entries(bytes) {
        if let Ok(files) = model_files(es, es.len() as int) {
            lemma_file_at(files, DEFAULT_ROOT_MODEL@);
            if let Some(rels) = entry_with_key(es, encode_utf8("_rels/.rels"@)) {
                lemma_root_from(rels.events, files);
            }
        }
    }
}

proof fn lemma_root_from(events: Seq<Option<EventView>>, files: Seq<FileView>)
    ensures
        root_from(events, files) matches Ok(Some(i)) ==> 0 <= i < files.len(),
    decreases events.len(),
{
    if events.len() > 0 {
        lemma_root_from(events.skip(1), files);
        if let Some(EventView::Open { element, .. }) = events[0] {
            if let Ok(Some(target)) = attribute_value(element, "Target"@) {
                lemma_file_at(files, normalized(target));
            }
        }
    }
}

} // verus!

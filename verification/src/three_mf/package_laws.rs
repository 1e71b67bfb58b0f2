//! What holds of packages.
use vstd::prelude::*;
use vstd::utf8::encode_utf8;

use super::archive::{archive_entries, entry_with_key, EntryView};
use super::attributes::{attribute_value, Fault};
use super::model::model_value;
use super::package::{
    fallback_root, file_at, is_model_name, law_distinct_paths, lemma_file_at, model_files,
    package_value, related_model, root_from, root_model, with_file, DEFAULT_ROOT_MODEL, FileView,
    PackageFault,
};
use super::path::normalized;
use super::reading_laws::{is_written, law_name};
use super::xml::{is_name, ElementView, EventView};
use crate::text::lowercase;

verus! {

// ---------------------------------------------------------------------------
// Model files
// ---------------------------------------------------------------------------

/// Whether a text ends in another.
pub open spec fn ends_in(s: Seq<char>, end: Seq<char>) -> bool {
    s.len() >= end.len() && forall|i: int|
        0 <= i < end.len() ==> #[trigger] end[i] == s[s.len() - end.len() + i]
}

proof fn lemma_ends_in(s: Seq<char>, end: Seq<char>)
    ensures
        end.is_suffix_of(s) <==> ends_in(s, end),
{
    if end.is_suffix_of(s) {
        let tail = s.subrange(s.len() - end.len(), s.len() as int);
        assert forall|i: int| 0 <= i < end.len() implies #[trigger] end[i] == s[s.len() - end.len()
            + i] by {
            assert(tail[i] == s[s.len() - end.len() + i]);
        }
    }
    if ends_in(s, end) {
        assert(end =~= s.subrange(s.len() - end.len(), s.len() as int));
    }
}

/// Whether the name of a file ends in `.model`, in upper or lower case.
pub open spec fn has_model_name(e: EntryView) -> bool {
    ends_in(lowercase(e.name), seq!['.', 'm', 'o', 'd', 'e', 'l'])
}

proof fn lemma_model_name(e: EntryView)
    ensures
        is_model_name(e.name) <==> has_model_name(e),
{
    reveal_strlit(".model");
    assert(".model"@ =~= seq!['.', 'm', 'o', 'd', 'e', 'l']);
    lemma_ends_in(lowercase(e.name), seq!['.', 'm', 'o', 'd', 'e', 'l']);
}

/// Whether a file of an archive is the last of the first `n` that is a model file with its path.
pub open spec fn is_latest(es: Seq<EntryView>, i: int, n: int) -> bool {
    &&& 0 <= i < n
    &&& has_model_name(es[i])
    &&& forall|j: int|
        i < j < n && has_model_name(#[trigger] es[j]) ==> normalized(es[j].name) != normalized(
            es[i].name,
        )
}

/// Whether a model file is what the events of a file of an archive describe.
pub open spec fn is_from(f: FileView, e: EntryView) -> bool {
    f.path == normalized(e.name) && model_value(e.events) == Ok::<_, Fault>(f.model)
}

/// Whether a model file comes from one of the first files of an archive, the last with its path.
pub open spec fn comes_from(es: Seq<EntryView>, n: int, f: FileView) -> bool {
    exists|i: int| #[trigger] is_latest(es, i, n) && is_from(f, es[i])
}

/// Whether a file of an archive is among the model files.
pub open spec fn is_among(files: Seq<FileView>, e: EntryView) -> bool {
    exists|k: int| 0 <= k < files.len() && is_from(#[trigger] files[k], e)
}

/// The model files of an archive are those whose names end in `.model`, each under its path and
/// with what its events describe. Of several with the same path, the last is there.
pub proof fn law_model_files(es: Seq<EntryView>, n: int)
    requires
        0 <= n <= es.len(),
        model_files(es, n) is Ok,
    ensures
        ({
            let files = model_files(es, n)->Ok_0;
            &&& forall|k: int| 0 <= k < files.len() ==> comes_from(es, n, #[trigger] files[k])
            &&& forall|i: int| #[trigger] is_latest(es, i, n) ==> is_among(files, es[i])
            &&& forall|i: int| 0 <= i < n ==> (#[trigger] es[i]).opens
        }),
    decreases n,
{
    if n > 0 {
        assert(model_files(es, n - 1) is Ok);
        law_model_files(es, n - 1);
        let before = model_files(es, n - 1)->Ok_0;
        let files = model_files(es, n)->Ok_0;
        lemma_model_name(es[n - 1]);
        if has_model_name(es[n - 1]) {
            assert forall|k: int| 0 <= k < files.len() implies comes_from(
                es,
                n,
                #[trigger] files[k],
            ) by {
                lemma_comes_from(es, n, k);
            }
            assert forall|i: int| #[trigger] is_latest(es, i, n) implies is_among(files, es[i]) by {
                lemma_is_among(es, n, i);
            }
        } else {
            assert(files == before);
            assert forall|k: int| 0 <= k < files.len() implies comes_from(
                es,
                n,
                #[trigger] files[k],
            ) by {
                let i = choose|i: int|
                    #[trigger] is_latest(es, i, n - 1) && is_from(before[k], es[i]);
                assert(is_latest(es, i, n));
            }
            assert forall|i: int| #[trigger] is_latest(es, i, n) implies is_among(files, es[i]) by {
                assert(is_latest(es, i, n - 1));
            }
        }
    }
}

proof fn lemma_comes_from(es: Seq<EntryView>, n: int, k: int)
    requires
        0 < n <= es.len(),
        model_files(es, n) is Ok,
        model_files(es, n - 1) is Ok,
        has_model_name(es[n - 1]),
        0 <= k < model_files(es, n)->Ok_0.len(),
        forall|k: int|
            0 <= k < model_files(es, n - 1)->Ok_0.len() ==> comes_from(
                es,
                n - 1,
                #[trigger] model_files(es, n - 1)->Ok_0[k],
            ),
    ensures
        comes_from(es, n, model_files(es, n)->Ok_0[k]),
{
    let before = model_files(es, n - 1)->Ok_0;
    let files = model_files(es, n)->Ok_0;
    let e = es[n - 1];
    lemma_model_name(e);
    let path = normalized(e.name);
    let added = FileView { path, model: model_value(e.events)->Ok_0 };
    lemma_file_at(before, path);
    law_distinct_paths(es, n - 1);
    assert(files == with_file(before, added));
    assert(is_latest(es, n - 1, n));
    if files[k].path == path {
        if k < before.len() && files[k] == before[k] && files[k] != added {
            let at = file_at(before, path)->0;
            assert(before[k].path == before[at].path);
        }
        assert(files[k] == added);
        assert(is_from(files[k], es[n - 1]));
    } else {
        assert(files[k] == before[k]);
        let i = choose|i: int| #[trigger] is_latest(es, i, n - 1) && is_from(before[k], es[i]);
        assert(is_latest(es, i, n));
    }
}

proof fn lemma_is_among(es: Seq<EntryView>, n: int, i: int)
    requires
        0 < n <= es.len(),
        model_files(es, n) is Ok,
        model_files(es, n - 1) is Ok,
        has_model_name(es[n - 1]),
        is_latest(es, i, n),
        is_latest(es, i, n - 1) ==> is_among(model_files(es, n - 1)->Ok_0, es[i]),
    ensures
        is_among(model_files(es, n)->Ok_0, es[i]),
{
    let before = model_files(es, n - 1)->Ok_0;
    let files = model_files(es, n)->Ok_0;
    let e = es[n - 1];
    lemma_model_name(e);
    let path = normalized(e.name);
    let added = FileView { path, model: model_value(e.events)->Ok_0 };
    lemma_file_at(before, path);
    assert(files == with_file(before, added));
    if i == n - 1 {
        let at = match file_at(before, path) {
            Some(at) => at,
            None => before.len() as int,
        };
        assert(files[at] == added);
        assert(is_from(files[at], es[i]));
    } else {
        assert(is_latest(es, i, n - 1));
        let k = choose|k: int| 0 <= k < before.len() && is_from(#[trigger] before[k], es[i]);
        assert(before[k].path != path);
        assert(files[k] == before[k]);
        assert(is_from(files[k], es[i]));
    }
}

/// Whether a file of an archive can be opened, and is valid if it is a model file.
pub open spec fn is_readable(e: EntryView) -> bool {
    e.opens && (has_model_name(e) ==> model_value(e.events) is Ok)
}

/// Model files are read if and only if every file of the archive can be opened and every model
/// file is valid. The first file with which something is wrong is the one that is told of.
pub proof fn law_model_files_refused(es: Seq<EntryView>, n: int, i: int)
    requires
        0 <= i <= n <= es.len(),
        forall|j: int| 0 <= j < i ==> is_readable(#[trigger] es[j]),
    ensures
        i == n ==> model_files(es, n) is Ok,
        i < n && !is_readable(es[i]) ==> model_files(es, n) == Err::<Seq<FileView>, _>(
            if es[i].opens {
                PackageFault::Model {
                    path: normalized(es[i].name),
                    fault: model_value(es[i].events)->Err_0,
                }
            } else {
                PackageFault::Entry
            },
        ),
    decreases n,
{
    if n > 0 {
        lemma_model_name(es[n - 1]);
        if i == n {
            law_model_files_refused(es, n - 1, i - 1);
            assert(is_readable(es[n - 1]));
        } else {
            law_model_files_refused(es, n - 1, i);
        }
    }
}

// ---------------------------------------------------------------------------
// The root model
// ---------------------------------------------------------------------------

/// Where the root model is when nothing else is said: `3d/3dmodel.model`.
pub open spec fn standard_location() -> Seq<char> {
    seq!['3', 'd', '/', '3', 'd', 'm', 'o', 'd', 'e', 'l', '.', 'm', 'o', 'd', 'e', 'l']
}

/// Without a word in the relationships, the root model is the one in the standard location, or
/// else the only one, or else there is none.
pub proof fn law_fallback(files: Seq<FileView>)
    ensures
        match fallback_root(files) {
            Ok(root) => 0 <= root < files.len() && (files[root].path == standard_location() || (
            files.len() == 1 && root == 0)),
            Err(fault) => fault == PackageFault::NoRoot && files.len() != 1 && forall|k: int|
                0 <= k < files.len() ==> (#[trigger] files[k]).path != standard_location(),
        },
        (exists|k: int| 0 <= k < files.len() && (#[trigger] files[k]).path == standard_location())
            ==> fallback_root(files) is Ok && files[fallback_root(files)->Ok_0].path
            == standard_location(),
{
    lemma_standard_location();
    lemma_file_at(files, standard_location());
}

proof fn lemma_standard_location()
    ensures
        DEFAULT_ROOT_MODEL@ == standard_location(),
{
    reveal_strlit("3d/3dmodel.model");
    assert("3d/3dmodel.model"@ =~= standard_location());
}

/// `Relationship`.
pub open spec fn relationship_name() -> Seq<char> {
    seq!['R', 'e', 'l', 'a', 't', 'i', 'o', 'n', 's', 'h', 'i', 'p']
}

/// Whether a relationship names a model: its `Type` ends in `/3dmodel`, and its `Target` is a
/// path.
pub open spec fn names_model(e: ElementView, target: Seq<char>) -> bool {
    &&& is_written(e.name, relationship_name())
    &&& attribute_value(e, seq!['T', 'y', 'p', 'e']) matches Ok(Some(kind)) && ends_in(
        kind,
        seq!['/', '3', 'd', 'm', 'o', 'd', 'e', 'l'],
    )
    &&& attribute_value(e, seq!['T', 'a', 'r', 'g', 'e', 't']) == Ok::<_, Fault>(Some(target))
}

/// Whether an event of the relationships is passed over: it is no relationship, or one that names
/// no model, or one that names a model that does not exist.
pub open spec fn is_passed(event: Option<EventView>, files: Seq<FileView>) -> bool {
    match event {
        None => false,
        Some(EventView::End) => false,
        Some(EventView::Open { element, .. }) => {
            ||| !is_written(element.name, relationship_name())
            ||| {
                &&& attribute_value(element, seq!['T', 'y', 'p', 'e']) is Ok
                &&& attribute_value(element, seq!['T', 'a', 'r', 'g', 'e', 't']) is Ok
                &&& forall|target: Seq<char>, k: int|
                    #![trigger names_model(element, target), files[k]]
                    names_model(element, target) && 0 <= k < files.len() ==> files[k].path
                        != normalized(target)
            }
        },
        Some(_) => true,
    }
}

proof fn lemma_related(files: Seq<FileView>, e: ElementView)
    requires
        is_written(e.name, relationship_name()),
    ensures
        forall|target: Seq<char>|
            #![trigger names_model(e, target)]
            names_model(e, target) ==> related_model(files, e) == Ok::<_, Fault>(
                file_at(files, normalized(target)),
            ),
        related_model(files, e) is Ok <==> attribute_value(e, seq!['T', 'y', 'p', 'e']) is Ok
            && attribute_value(e, seq!['T', 'a', 'r', 'g', 'e', 't']) is Ok,
        related_model(files, e) matches Ok(Some(i)) ==> {
            let target = attribute_value(e, seq!['T', 'a', 'r', 'g', 'e', 't'])->Ok_0->0;
            names_model(e, target) && file_at(files, normalized(target)) == Some(i)
        },
{
    reveal_strlit("Type");
    reveal_strlit("Target");
    reveal_strlit("/3dmodel");
    assert("Type"@ =~= seq!['T', 'y', 'p', 'e']);
    assert("Target"@ =~= seq!['T', 'a', 'r', 'g', 'e', 't']);
    assert("/3dmodel"@ =~= seq!['/', '3', 'd', 'm', 'o', 'd', 'e', 'l']);
    if let Ok(Some(kind)) = attribute_value(e, seq!['T', 'y', 'p', 'e']) {
        lemma_ends_in(kind, seq!['/', '3', 'd', 'm', 'o', 'd', 'e', 'l']);
    }
}

proof fn lemma_relationship(name: Seq<u8>)
    ensures
        is_name(name, "Relationship"@) <==> is_written(name, relationship_name()),
{
    reveal_strlit("Relationship");
    assert("Relationship"@ =~= relationship_name());
    law_name(name, relationship_name());
}

/// The first relationship that names a model file of the package names the root model. What
/// comes before it is passed over, and what comes behind it makes no difference.
pub proof fn law_related_root(
    events: Seq<Option<EventView>>,
    files: Seq<FileView>,
    n: int,
    target: Seq<char>,
    k: int,
)
    requires
        0 <= n < events.len(),
        forall|j: int| 0 <= j < n ==> is_passed(#[trigger] events[j], files),
        events[n] matches Some(EventView::Open { element, .. }) && names_model(element, target),
        0 <= k < files.len(),
        files[k].path == normalized(target),
        forall|i: int, j: int|
            0 <= i < files.len() && 0 <= j < files.len() && #[trigger] files[i].path
                == #[trigger] files[j].path ==> i == j,
    ensures
        root_from(events, files) == Ok::<_, PackageFault>(Some(k)),
    decreases n,
{
    if n == 0 {
        let e = events[0]->Some_0->Open_element;
        lemma_relationship(e.name);
        lemma_related(files, e);
        lemma_file_at(files, normalized(target));
        assert(names_model(e, target));
        let i = file_at(files, normalized(target))->0;
        assert(files[i].path == files[k].path);
    } else {
        lemma_passed(events, files);
        let rest = events.skip(1);
        assert forall|j: int| 0 <= j < n - 1 implies is_passed(#[trigger] rest[j], files) by {
            assert(rest[j] == events[j + 1]);
        }
        assert(rest[n - 1] == events[n]);
        law_related_root(rest, files, n - 1, target, k);
    }
}

proof fn lemma_passed(events: Seq<Option<EventView>>, files: Seq<FileView>)
    requires
        events.len() > 0,
        is_passed(events[0], files),
    ensures
        root_from(events, files) == root_from(events.skip(1), files),
{
    if let Some(EventView::Open { element, .. }) = events[0] {
        lemma_relationship(element.name);
        if is_written(element.name, relationship_name()) {
            lemma_related(files, element);
            if let Ok(Some(i)) = related_model(files, element) {
                let target = attribute_value(
                    element,
                    seq!['T', 'a', 'r', 'g', 'e', 't'],
                )->Ok_0->0;
                lemma_file_at(files, normalized(target));
                assert(names_model(element, target));
                assert(files[i].path == normalized(target));
            }
        }
    }
}

/// Relationships of which none names a model file of the package name no root model.
pub proof fn law_unrelated(events: Seq<Option<EventView>>, files: Seq<FileView>, n: int)
    requires
        0 <= n < events.len(),
        forall|j: int| 0 <= j < n ==> is_passed(#[trigger] events[j], files),
        events[n] == Some(EventView::End) || events[n] is None,
    ensures
        events[n] is Some ==> root_from(events, files) == Ok::<_, PackageFault>(None::<int>),
        events[n] is None ==> root_from(events, files) == Err::<Option<int>, _>(
            PackageFault::Relationships(Fault::Xml),
        ),
    decreases n,
{
    if n > 0 {
        lemma_passed(events, files);
        let rest = events.skip(1);
        assert forall|j: int| 0 <= j < n - 1 implies is_passed(#[trigger] rest[j], files) by {
            assert(rest[j] == events[j + 1]);
        }
        assert(rest[n - 1] == events[n]);
        law_unrelated(rest, files, n - 1);
    }
}

/// A relationship whose `Type` or `Target` cannot be looked up is at fault, the `Type` first.
pub proof fn law_faulty_relationship(
    events: Seq<Option<EventView>>,
    files: Seq<FileView>,
    n: int,
    e: ElementView,
    fault: Fault,
)
    requires
        0 <= n < events.len(),
        forall|j: int| 0 <= j < n ==> is_passed(#[trigger] events[j], files),
        events[n] matches Some(EventView::Open { element, .. }) && element == e,
        is_written(e.name, relationship_name()),
        match attribute_value(e, seq!['T', 'y', 'p', 'e']) {
            Err(f) => f == fault,
            Ok(_) => attribute_value(e, seq!['T', 'a', 'r', 'g', 'e', 't']) == Err::<
                Option<Seq<char>>,
                _,
            >(fault),
        },
    ensures
        root_from(events, files) == Err::<Option<int>, _>(PackageFault::Relationships(fault)),
    decreases n,
{
    if n == 0 {
        lemma_relationship(e.name);
        reveal_strlit("Type");
        reveal_strlit("Target");
        assert("Type"@ =~= seq!['T', 'y', 'p', 'e']);
        assert("Target"@ =~= seq!['T', 'a', 'r', 'g', 'e', 't']);
    } else {
        lemma_passed(events, files);
        let rest = events.skip(1);
        assert forall|j: int| 0 <= j < n - 1 implies is_passed(#[trigger] rest[j], files) by {
            assert(rest[j] == events[j + 1]);
        }
        assert(rest[n - 1] == events[n]);
        law_faulty_relationship(rest, files, n - 1, e, fault);
    }
}

/// The relationships are in `_rels/.rels`, or rather in the last file of that name. If there is no
/// such file, or it cannot be opened, nothing is said in them.
pub proof fn law_relationships(es: Seq<EntryView>, files: Seq<FileView>, i: int)
    requires
        -1 <= i < es.len(),
        forall|j: int|
            i < j < es.len() ==> (#[trigger] es[j]).key != encode_utf8(
                seq!['_', 'r', 'e', 'l', 's', '/', '.', 'r', 'e', 'l', 's'],
            ),
        i >= 0 ==> es[i].key == encode_utf8(
            seq!['_', 'r', 'e', 'l', 's', '/', '.', 'r', 'e', 'l', 's'],
        ),
    ensures
        i >= 0 && es[i].opens ==> match root_from(es[i].events, files) {
            Err(fault) => root_model(es, files) == Err::<int, _>(fault),
            Ok(Some(root)) => root_model(es, files) == Ok::<_, PackageFault>(root),
            Ok(None) => root_model(es, files) == fallback_root(files),
        },
        i < 0 || !es[i].opens ==> root_model(es, files) == fallback_root(files),
{
    reveal_strlit("_rels/.rels");
    let name = seq!['_', 'r', 'e', 'l', 's', '/', '.', 'r', 'e', 'l', 's'];
    assert("_rels/.rels"@ =~= name);
    lemma_last_with_key(es, encode_utf8(name), i);
}

proof fn lemma_last_with_key(es: Seq<EntryView>, key: Seq<u8>, i: int)
    requires
        -1 <= i < es.len(),
        forall|j: int| i < j < es.len() ==> (#[trigger] es[j]).key != key,
        i >= 0 ==> es[i].key == key,
    ensures
        i >= 0 ==> entry_with_key(es, key) == Some(es[i]),
        i < 0 ==> entry_with_key(es, key) is None,
    decreases es.len(),
{
    if es.len() > 0 && i < es.len() - 1 {
        assert(es[es.len() - 1].key != key);
        lemma_last_with_key(es.drop_last(), key, i);
    }
}

/// A package is its model files and its root model, and the first of the two that cannot be had
/// is what is told of.
pub proof fn law_package(bytes: Seq<u8>)
    ensures
        archive_entries(bytes) is None ==> package_value(bytes) == Err::<(Seq<FileView>, int), _>(
            PackageFault::Archive,
        ),
        archive_entries(bytes) matches Some(es) ==> match model_files(es, es.len() as int) {
            Err(fault) => package_value(bytes) == Err::<(Seq<FileView>, int), _>(fault),
            Ok(files) => match root_model(es, files) {
                Err(fault) => package_value(bytes) == Err::<(Seq<FileView>, int), _>(fault),
                Ok(root) => package_value(bytes) == Ok::<_, PackageFault>((files, root)),
            },
        },
{
}

} // verus!

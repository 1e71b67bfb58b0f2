//! What holds of file names.
use vstd::prelude::*;
use vstd::utf8::is_ascii_chars;

use super::numbers::{law_lower_case, spells};
use crate::files::{
    extension_value, is_extension, is_found, is_model_source, is_plain, is_separator, is_source_for,
    last_index, model_format, model_format_named, model_source, string_view, tail, without_trailing,
    ModelFormat, Source, UnsupportedFormat,
};
use crate::text::{ascii_lowercase, lowercase};

verus! {

// ---------------------------------------------------------------------------
// Extensions
// ---------------------------------------------------------------------------

/// Whether a path is a directory, which may be missing, a name, a point and an extension. The
/// directory ends in a slash, and neither the name nor the extension has anything in it that
/// separates directories on some system. The path does not start with two separators.
pub open spec fn has_extension(
    path: Seq<char>,
    directory: Seq<char>,
    name: Seq<char>,
    extension: Seq<char>,
) -> bool {
    &&& path == directory + name.push('.') + extension
    &&& directory.len() > 0 ==> directory.last() == '/'
    &&& name.len() > 0
    &&& !(name == seq!['.'] && extension.len() == 0)
    &&& forall|i: int|
        0 <= i < name.len() ==> #[trigger] name[i] != '/' && name[i] != '\\' && name[i] != ':'
    &&& forall|i: int|
        0 <= i < extension.len() ==> #[trigger] extension[i] != '/' && extension[i] != '\\'
            && extension[i] != ':' && extension[i] != '.'
    &&& !(path.len() > 1 && (path[0] == '/' || path[0] == '\\') && (path[1] == '/' || path[1]
        == '\\'))
}

/// The extension of a path is what follows the last point of the name, whatever the directory.
pub proof fn law_extension(
    path: Seq<char>,
    directory: Seq<char>,
    name: Seq<char>,
    extension: Seq<char>,
    found: Option<Seq<char>>,
)
    requires
        has_extension(path, directory, name, extension),
        is_extension(path, found),
    ensures
        found == Some(extension),
{
    let last = name.push('.') + extension;
    assert(path =~= directory + last);
    assert forall|i: int| 0 <= i < last.len() implies !is_separator(#[trigger] last[i]) by {
        if i < name.len() {
            assert(last[i] == name[i]);
        } else if i > name.len() {
            assert(last[i] == extension[i - name.len() - 1]);
        }
    }
    lemma_tail_of(directory, last);
    assert forall|i: int| name.len() < i < last.len() implies #[trigger] last[i] != '.' by {
        assert(last[i] == extension[i - name.len() - 1]);
    }
    lemma_last_at(last, '.', name.len() as int);
    assert(last.skip(name.len() as int + 1) =~= extension);
    if last == seq!['.', '.'] {
        assert(last.len() == 2);
        assert(name[0] == last[0]);
        assert(name =~= seq!['.']);
        assert(extension.len() == 0);
    }
}

proof fn lemma_tail_of(directory: Seq<char>, last: Seq<char>)
    requires
        directory.len() > 0 ==> is_separator(directory.last()),
        forall|i: int| 0 <= i < last.len() ==> !is_separator(#[trigger] last[i]),
    ensures
        tail(directory + last) == last,
    decreases last.len(),
{
    let path = directory + last;
    if last.len() == 0 {
        assert(path =~= directory);
        assert(last =~= Seq::empty());
    } else {
        let rest = last.drop_last();
        assert forall|i: int| 0 <= i < rest.len() implies !is_separator(#[trigger] rest[i]) by {
            assert(rest[i] == last[i]);
        }
        lemma_tail_of(directory, rest);
        assert(path.drop_last() =~= directory + rest);
        assert(path.last() == last[last.len() - 1]);
        assert(rest.push(last.last()) =~= last);
    }
}

proof fn lemma_last_at(s: Seq<char>, c: char, at: int)
    requires
        0 <= at < s.len(),
        s[at] == c,
        forall|i: int| at < i < s.len() ==> #[trigger] s[i] != c,
    ensures
        last_index(s, c) == at,
    decreases s.len(),
{
    if at < s.len() - 1 {
        assert(s[s.len() - 1] != c);
        lemma_last_at(s.drop_last(), c, at);
    }
}

proof fn lemma_none_at(s: Seq<char>, c: char)
    requires
        forall|i: int| 0 <= i < s.len() ==> #[trigger] s[i] != c,
    ensures
        last_index(s, c) == -1,
    decreases s.len(),
{
    if s.len() > 0 {
        assert(s[s.len() - 1] != c);
        lemma_none_at(s.drop_last(), c);
    }
}

/// A path whose name has no point, or none but one at its start, has no extension. There are no
/// backslashes and no colons in the path, and it does not start with two slashes.
pub proof fn law_no_extension(
    path: Seq<char>,
    directory: Seq<char>,
    name: Seq<char>,
    found: Option<Seq<char>>,
)
    requires
        path == directory + name,
        directory.len() > 0 ==> directory.last() == '/',
        name.len() > 0,
        name != seq!['.'],
        name[0] != '/',
        forall|i: int| 1 <= i < name.len() ==> #[trigger] name[i] != '/' && name[i] != '.',
        forall|i: int| 0 <= i < path.len() ==> #[trigger] path[i] != '\\' && path[i] != ':',
        !(path.len() > 1 && path[0] == '/' && path[1] == '/'),
        is_extension(path, found),
    ensures
        found is None,
{
    let n = name.len() as int;
    assert(path.last() == name[n - 1]);
    if path.last() == '.' {
        assert(n == 1);
        assert(name =~= seq!['.']);
    }
    assert(name[n - 1] != '/');
    assert(without_trailing(path) == path);
    lemma_after_slash(directory, name);
    assert(path.skip(directory.len() as int) =~= name);
    if name[0] == '.' {
        lemma_last_at(name, '.', 0);
    } else {
        assert forall|i: int| 0 <= i < name.len() implies #[trigger] name[i] != '.' by {
        }
        lemma_none_at(name, '.');
    }
    assert(extension_value(path) is None);
    assert(is_plain(path));
}

proof fn lemma_after_slash(directory: Seq<char>, name: Seq<char>)
    requires
        directory.len() > 0 ==> directory.last() == '/',
        forall|i: int| 0 <= i < name.len() ==> #[trigger] name[i] != '/',
    ensures
        last_index(directory + name, '/') == directory.len() - 1,
{
    let path = directory + name;
    assert forall|i: int| directory.len() <= i < path.len() implies #[trigger] path[i] != '/' by {
        assert(path[i] == name[i - directory.len()]);
    }
    if directory.len() > 0 {
        lemma_last_at(path, '/', directory.len() - 1);
    } else {
        lemma_none_at(path, '/');
    }
}

// ---------------------------------------------------------------------------
// Model files
// ---------------------------------------------------------------------------

/// The extension in lower case stands for the format with that name, `stp` for STEP as well, and
/// nothing else stands for a format.
pub proof fn law_model_format(extension: Seq<char>)
    ensures
        model_format(extension) == Some(ModelFormat::Stl) <==> extension == seq!['s', 't', 'l'],
        model_format(extension) == Some(ModelFormat::Obj) <==> extension == seq!['o', 'b', 'j'],
        model_format(extension) == Some(ModelFormat::ThreeMf) <==> extension == seq!['3', 'm', 'f'],
        model_format(extension) == Some(ModelFormat::Step) <==> extension == seq![
            's',
            't',
            'e',
            'p',
        ] || extension == seq!['s', 't', 'p'],
{
    reveal_strlit("stl");
    reveal_strlit("obj");
    reveal_strlit("3mf");
    reveal_strlit("step");
    reveal_strlit("stp");
    assert("stl"@ =~= seq!['s', 't', 'l']);
    assert("obj"@ =~= seq!['o', 'b', 'j']);
    assert("3mf"@ =~= seq!['3', 'm', 'f']);
    assert("step"@ =~= seq!['s', 't', 'e', 'p']);
    assert("stp"@ =~= seq!['s', 't', 'p']);
    assert(seq!['s', 't', 'l'][0] != seq!['o', 'b', 'j'][0]);
    assert(seq!['s', 't', 'l'][2] != seq!['s', 't', 'p'][2]);
    assert(seq!['s', 't', 'l'][0] != seq!['3', 'm', 'f'][0]);
    assert(seq!['o', 'b', 'j'][0] != seq!['3', 'm', 'f'][0]);
    assert(seq!['o', 'b', 'j'][0] != seq!['s', 't', 'p'][0]);
    assert(seq!['3', 'm', 'f'][0] != seq!['s', 't', 'p'][0]);
    assert(seq!['s', 't', 'e', 'p'].len() == 4);
    assert(seq!['s', 't', 'l'].len() == 3 && seq!['o', 'b', 'j'].len() == 3 && seq![
        '3',
        'm',
        'f',
    ].len() == 3 && seq!['s', 't', 'p'].len() == 3);
}

/// A model comes from the standard input if its name is `-`, and never otherwise.
pub proof fn law_stdin(filename: &str, r: Result<Source, UnsupportedFormat>)
    requires
        call_ensures(model_source, (filename,), r),
    ensures
        r == Ok::<_, UnsupportedFormat>(Source::Stdin) <==> filename@ == seq!['-'],
{
    reveal_strlit("-");
    assert("-"@ =~= seq!['-']);
}

/// A model is read in the format that the extension of its name spells, in upper or lower case.
/// There is no other format, and what is told of an extension that spells none is the extension
/// in lower case.
pub proof fn law_model_source(
    filename: &str,
    r: Result<Source, UnsupportedFormat>,
    directory: Seq<char>,
    name: Seq<char>,
    extension: Seq<char>,
)
    requires
        call_ensures(model_source, (filename,), r),
        has_extension(filename@, directory, name, extension),
        is_ascii_chars(extension),
    ensures
        r == Ok::<_, UnsupportedFormat>(Source::File(ModelFormat::Stl)) <==> spells(
            extension,
            seq!['s', 't', 'l'],
        ),
        r == Ok::<_, UnsupportedFormat>(Source::File(ModelFormat::Obj)) <==> spells(
            extension,
            seq!['o', 'b', 'j'],
        ),
        r == Ok::<_, UnsupportedFormat>(Source::File(ModelFormat::ThreeMf)) <==> spells(
            extension,
            seq!['3', 'm', 'f'],
        ),
        r == Ok::<_, UnsupportedFormat>(Source::File(ModelFormat::Step)) <==> spells(
            extension,
            seq!['s', 't', 'e', 'p'],
        ) || spells(extension, seq!['s', 't', 'p']),
        r matches Err(e) ==> spells(extension, e.extension@) && forall|i: int|
            0 <= i < e.extension@.len() ==> !('A' <= #[trigger] e.extension@[i] <= 'Z'),
{
    lemma_model_source(filename@, r, directory, name, extension);
}

pub(super) proof fn lemma_model_source(
    filename: Seq<char>,
    r: Result<Source, UnsupportedFormat>,
    directory: Seq<char>,
    name: Seq<char>,
    extension: Seq<char>,
)
    requires
        is_model_source(filename, r),
        has_extension(filename, directory, name, extension),
        is_ascii_chars(extension),
    ensures
        r != Ok::<_, UnsupportedFormat>(Source::Stdin),
        r == Ok::<_, UnsupportedFormat>(Source::File(ModelFormat::Stl)) <==> spells(
            extension,
            seq!['s', 't', 'l'],
        ),
        r == Ok::<_, UnsupportedFormat>(Source::File(ModelFormat::Obj)) <==> spells(
            extension,
            seq!['o', 'b', 'j'],
        ),
        r == Ok::<_, UnsupportedFormat>(Source::File(ModelFormat::ThreeMf)) <==> spells(
            extension,
            seq!['3', 'm', 'f'],
        ),
        r == Ok::<_, UnsupportedFormat>(Source::File(ModelFormat::Step)) <==> spells(
            extension,
            seq!['s', 't', 'e', 'p'],
        ) || spells(extension, seq!['s', 't', 'p']),
        r matches Err(e) ==> spells(extension, e.extension@) && forall|i: int|
            0 <= i < e.extension@.len() ==> !('A' <= #[trigger] e.extension@[i] <= 'Z'),
{
    reveal_strlit("-");
    let path = filename;
    assert(path.len() >= 2);
    let found = choose|found: Option<Seq<char>>| #[trigger]
        is_extension(path, found) && is_source_for(found, r);
    law_extension(path, directory, name, extension, found);
    let lower = ascii_lowercase(extension);
    law_model_format(lower);
    law_lower_case(extension, seq!['s', 't', 'l']);
    law_lower_case(extension, seq!['o', 'b', 'j']);
    law_lower_case(extension, seq!['3', 'm', 'f']);
    law_lower_case(extension, seq!['s', 't', 'e', 'p']);
    law_lower_case(extension, seq!['s', 't', 'p']);
    assert forall|i: int| 0 <= i < lower.len() implies !('A' <= #[trigger] lower[i] <= 'Z') by {
        assert(lower[i] == crate::text::ascii_lower(extension[i]));
    }
    law_lower_case(extension, lower);
}

/// Every extension, of whatever characters, is read in lower case.
pub proof fn law_source_in_lower_case(
    filename: &str,
    r: Result<Source, UnsupportedFormat>,
    directory: Seq<char>,
    name: Seq<char>,
    extension: Seq<char>,
    lower: &str,
    named: Option<ModelFormat>,
)
    requires
        call_ensures(model_source, (filename,), r),
        has_extension(filename@, directory, name, extension),
        call_ensures(model_format_named, (lower,), named),
    ensures
        match r {
            Ok(Source::File(format)) => model_format(lowercase(extension)) == Some(format),
            Ok(Source::Stdin) => false,
            Err(e) => model_format(lowercase(extension)) is None && e.extension@ == lowercase(
                extension,
            ),
        },
        named == model_format(lower@),
{
    reveal_strlit("-");
    let path = filename@;
    assert(path.len() >= 2);
    let found = choose|found: Option<Seq<char>>| #[trigger]
        is_extension(path, found) && is_source_for(found, r);
    law_extension(path, directory, name, extension, found);
}

/// Whatever the system finds as the extension of a name is read in lower case, and decides. What is
/// missing counts as empty.
pub proof fn law_source_found(filename: &str, r: Result<Source, UnsupportedFormat>)
    requires
        call_ensures(model_source, (filename,), r),
        filename@ != seq!['-'],
    ensures
        exists|e: Option<String>| #[trigger]
            is_found(filename, e) && {
                let lower = lowercase(
                    match e {
                        Some(e) => e@,
                        None => Seq::empty(),
                    },
                );
                match r {
                    Ok(Source::File(format)) => model_format(lower) == Some(format),
                    Ok(Source::Stdin) => false,
                    Err(unsupported) => model_format(lower) is None && unsupported.extension@
                        == lower,
                }
            },
{
    reveal_strlit("-");
    assert("-"@ =~= seq!['-']);
    let e = choose|e: Option<String>| #[trigger]
        is_found(filename, e) && is_source_for(string_view(e), r);
    assert(is_found(filename, e));
}

/// A name without an extension stands for no format.
pub proof fn law_source_unknown(
    filename: &str,
    r: Result<Source, UnsupportedFormat>,
    directory: Seq<char>,
    name: Seq<char>,
)
    requires
        call_ensures(model_source, (filename,), r),
        filename@ == directory + name,
        filename@ != seq!['-'],
        directory.len() > 0 ==> directory.last() == '/',
        name.len() > 0,
        name != seq!['.'],
        name[0] != '/',
        forall|i: int| 1 <= i < name.len() ==> #[trigger] name[i] != '/' && name[i] != '.',
        forall|i: int| 0 <= i < filename@.len() ==> #[trigger] filename@[i] != '\\' && filename@[i] != ':',
        !(filename@.len() > 1 && filename@[0] == '/' && filename@[1] == '/'),
    ensures
        r matches Err(e) && e.extension@.len() == 0,
{
    reveal_strlit("-");
    assert("-"@ =~= seq!['-']);
    let path = filename@;
    let found = choose|found: Option<Seq<char>>| #[trigger]
        is_extension(path, found) && is_source_for(found, r);
    law_no_extension(path, directory, name, found);
    let none = Seq::<char>::empty();
    law_model_format(ascii_lowercase(none));
    assert(ascii_lowercase(none) =~= none);
    assert(is_ascii_chars(none));
}

} // verus!

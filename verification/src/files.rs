//! File names and what they say about files.
use vstd::prelude::*;
use vstd::utf8::is_ascii_chars;

use crate::text;
use crate::text::{ascii_lowercase, lowercase};

verus! {

// ---------------------------------------------------------------------------
// Extensions
// ---------------------------------------------------------------------------

/// Where a character occurs last, or -1.
pub open spec fn last_index(s: Seq<char>, c: char) -> int
    decreases s.len(),
{
    if s.len() == 0 {
        -1
    } else if s.last() == c {
        s.len() - 1
    } else {
        last_index(s.drop_last(), c)
    }
}

/// A path without the separators at its end, and without the components `.` there.
pub open spec fn without_trailing(path: Seq<char>) -> Seq<char>
    decreases path.len(),
{
    if path.len() > 0 && path.last() == '/' {
        without_trailing(path.drop_last())
    } else if path.len() > 1 && path.last() == '.' && path[path.len() - 2] == '/' {
        without_trailing(path.drop_last())
    } else {
        path
    }
}

/// The last component of a path, when it is a name.
pub open spec fn file_name(path: Seq<char>) -> Option<Seq<char>> {
    let p = without_trailing(path);
    let name = p.skip(last_index(p, '/') + 1);
    if name.len() == 0 || name == seq!['.'] || name == seq!['.', '.'] {
        None
    } else {
        Some(name)
    }
}

/// What follows the last point of a file name that does not start with that point.
pub open spec fn extension_value(path: Seq<char>) -> Option<Seq<char>> {
    match file_name(path) {
        Some(name) => {
            let point = last_index(name, '.');
            if point > 0 {
                Some(name.skip(point + 1))
            } else {
                None
            }
        },
        None => None,
    }
}

/// A character that separates components on some system, or ends what stands before them.
pub open spec fn is_separator(c: char) -> bool {
    c == '/' || c == '\\' || c == ':'
}

/// What follows the last separator of any system.
pub open spec fn tail(path: Seq<char>) -> Seq<char>
    decreases path.len(),
{
    if path.len() == 0 || is_separator(path.last()) {
        Seq::empty()
    } else {
        tail(path.drop_last()).push(path.last())
    }
}

/// Whether a path starts with two slashes or backslashes, behind which some systems expect the
/// name of a server or a device.
pub open spec fn starts_with_two(path: Seq<char>) -> bool {
    path.len() >= 2 && (path[0] == '/' || path[0] == '\\') && (path[1] == '/' || path[1] == '\\')
}

/// A path that means the same on every system: it has no backslashes and no colons, and does not
/// start with two slashes.
pub open spec fn is_plain(path: Seq<char>) -> bool {
    &&& forall|i: int| 0 <= i < path.len() ==> #[trigger] path[i] != '\\' && path[i] != ':'
    &&& !starts_with_two(path)
}

/// Whether the end of a path shows its extension on every system: what follows the last separator
/// of any system has a point that is not its first character.
pub open spec fn shows_extension(path: Seq<char>) -> bool {
    !starts_with_two(path) && tail(path) != seq!['.', '.'] && last_index(tail(path), '.') > 0
}

/// What follows the last point behind the last separator of any system.
pub open spec fn shown_extension(path: Seq<char>) -> Seq<char> {
    tail(path).skip(last_index(tail(path), '.') + 1)
}

/// Whether an extension is that of a path, as far as it is the same on every system.
pub open spec fn is_extension(path: Seq<char>, extension: Option<Seq<char>>) -> bool {
    &&& is_plain(path) ==> extension == extension_value(path)
    &&& shows_extension(path) ==> extension == Some(shown_extension(path))
}

/// The characters of a string, if there is one.
pub open spec fn string_view(s: Option<String>) -> Option<Seq<char>> {
    match s {
        Some(s) => Some(s@),
        None => None,
    }
}

/// `std::path::Path::extension`, for a path that is valid UTF-8. Which characters separate
/// components depends on the system: slashes do, on some systems backslashes do too, and what
/// stands before a colon or behind two separators at the start can be no component at all. So
/// nothing is said of a path with backslashes, colons or two slashes at its start, but for the
/// case in which its end shows the extension whatever separates the components.
#[verifier::external_body]
pub(crate) fn extension(path: &str) -> (r: Option<String>)
    ensures
        is_extension(path@, string_view(r)),
{
    std::path::Path::new(path).extension().and_then(|e| e.to_str()).map(|e| e.to_string())
}

/// Whether an extension is what the system finds in a path. Of every path, this is what counts,
/// also of those that do not mean the same on every system.
pub closed spec fn is_found(path: &str, e: Option<String>) -> bool {
    call_ensures(extension, (path,), e)
}

/// The extension that the system finds in a path.
pub(crate) fn found_extension(path: &str) -> (r: Option<String>)
    ensures
        is_found(path, r),
        is_extension(path@, string_view(r)),
{
    let find = extension;
    find(path)
}

// ---------------------------------------------------------------------------
// Model files
// ---------------------------------------------------------------------------

/// The formats of model files.
#[derive(Clone, Copy, PartialEq, Eq, Structural, Debug)]
pub enum ModelFormat {
    Stl,
    Obj,
    ThreeMf,
    Step,
}

/// Where a model is read from.
#[derive(Clone, Copy, PartialEq, Eq, Structural, Debug)]
pub enum Source {
    /// An STL file on the standard input.
    Stdin,
    /// A file.
    File(ModelFormat),
}

/// The format that an extension in lower case stands for.
pub open spec fn model_format(extension: Seq<char>) -> Option<ModelFormat> {
    if extension == "obj"@ {
        Some(ModelFormat::Obj)
    } else if extension == "stl"@ {
        Some(ModelFormat::Stl)
    } else if extension == "3mf"@ {
        Some(ModelFormat::ThreeMf)
    } else if extension == "step"@ || extension == "stp"@ {
        Some(ModelFormat::Step)
    } else {
        None
    }
}

/// The format that an extension in lower case stands for.
pub fn model_format_named(extension: &str) -> (r: Option<ModelFormat>)
    ensures
        r == model_format(extension@),
{
    if extension.eq("obj") {
        Some(ModelFormat::Obj)
    } else if extension.eq("stl") {
        Some(ModelFormat::Stl)
    } else if extension.eq("3mf") {
        Some(ModelFormat::ThreeMf)
    } else if extension.eq("step") || extension.eq("stp") {
        Some(ModelFormat::Step)
    } else {
        None
    }
}

/// An extension that stands for no format of model files.
pub struct UnsupportedFormat {
    pub extension: String,
}

/// Whether a source is the one for a file with an extension in lower case.
pub open spec fn is_source_of(lower: Seq<char>, r: Result<Source, UnsupportedFormat>) -> bool {
    match r {
        Ok(Source::File(format)) => model_format(lower) == Some(format),
        Ok(Source::Stdin) => false,
        Err(e) => model_format(lower) is None && e.extension@ == lower,
    }
}

/// Whether a source is the one for a file with an extension, if it has one, in upper or lower
/// case.
pub open spec fn is_source_for(
    extension: Option<Seq<char>>,
    r: Result<Source, UnsupportedFormat>,
) -> bool {
    let e = match extension {
        Some(e) => e,
        None => Seq::empty(),
    };
    is_source_of(lowercase(e), r) && (is_ascii_chars(e) ==> is_source_of(ascii_lowercase(e), r))
}

/// Whether a source is the one that a file name stands for.
pub open spec fn is_model_source(
    filename: Seq<char>,
    r: Result<Source, UnsupportedFormat>,
) -> bool {
    if filename == "-"@ {
        r == Ok::<_, UnsupportedFormat>(Source::Stdin)
    } else {
        exists|extension: Option<Seq<char>>| #[trigger]
            is_extension(filename, extension) && is_source_for(extension, r)
    }
}

/// Where a model is read from: `-` stands for the standard input, and the extension of a file
/// for its format, in upper or lower case.
pub fn model_source(filename: &str) -> (r: Result<Source, UnsupportedFormat>)
    ensures
        is_model_source(filename@, r),
        filename@ != "-"@ ==> exists|e: Option<String>| #[trigger]
            is_found(filename, e) && is_source_for(string_view(e), r),
{
    if filename.eq("-") {
        return Ok(Source::Stdin);
    }
    let found = found_extension(filename);
    let ghost first = found;
    let ghost known = string_view(found);
    let found = match found {
        Some(e) => e,
        None => String::new(),
    };
    let lower = text::to_lowercase(found.as_str());
    let r = match model_format_named(lower.as_str()) {
        Some(format) => Ok(Source::File(format)),
        None => Err(UnsupportedFormat { extension: lower }),
    };
    proof {
        if known is None {
            assert(found@ =~= Seq::empty());
        }
        assert(is_extension(filename@, known) && is_source_for(known, r));
        assert(is_found(filename, first) && is_source_for(string_view(first), r));
    }
    r
}

// ---------------------------------------------------------------------------
// Laws
// ---------------------------------------------------------------------------

/// What the system finds is what looking for the extension gives, and on a path that means the same
/// on every system it is the extension.
pub(crate) proof fn law_found(path: &str, e: Option<String>)
    requires
        is_found(path, e),
    ensures
        call_ensures(extension, (path,), e),
        is_extension(path@, string_view(e)),
{
}

/// Extensions that differ only in the case of ASCII letters stand for the same source.
pub proof fn law_extension_case(
    a: Seq<char>,
    b: Seq<char>,
    r: Result<Source, UnsupportedFormat>,
    s: Result<Source, UnsupportedFormat>,
)
    requires
        is_ascii_chars(a),
        is_ascii_chars(b),
        ascii_lowercase(a) == ascii_lowercase(b),
        is_source_for(Some(a), r),
        is_source_for(Some(b), s),
    ensures
        match (r, s) {
            (Ok(x), Ok(y)) => x == y,
            (Err(x), Err(y)) => x.extension@ == y.extension@,
            _ => false,
        },
{
}

/// A file name whose end shows an extension of ASCII characters stands for the format that the
/// extension in lower case stands for.
pub proof fn law_source_shown(filename: Seq<char>, r: Result<Source, UnsupportedFormat>)
    requires
        filename != "-"@,
        shows_extension(filename),
        is_ascii_chars(shown_extension(filename)),
        is_model_source(filename, r),
    ensures
        is_source_of(ascii_lowercase(shown_extension(filename)), r),
{
}

/// On a plain path, an extension that shows at the end is the extension.
pub proof fn law_shown_extension(path: Seq<char>)
    requires
        is_plain(path),
        shows_extension(path),
    ensures
        extension_value(path) == Some(shown_extension(path)),
{
    lemma_tail(path);
    assert(path.last() == tail(path).last());
    assert(tail(path).last() != '/');
    let name = tail(path);
    lemma_last_index(name, '.');
    if name.len() == 1 {
        assert(last_index(name, '.') <= 0);
    }
    if path.len() > 1 && path.last() == '.' && path[path.len() - 2] == '/' {
        assert(name =~= seq!['.']) by {
            if name.len() > 1 {
                assert(name[name.len() - 2] == path[path.len() - 2]);
            }
        }
    }
    assert(without_trailing(path) == path);
    assert(path.skip(last_index(path, '/') + 1) =~= name);
}

/// The tail of a plain path starts behind its last slash.
proof fn lemma_tail(path: Seq<char>)
    requires
        forall|i: int| 0 <= i < path.len() ==> #[trigger] path[i] != '\\' && path[i] != ':',
    ensures
        -1 <= last_index(path, '/') < path.len(),
        tail(path) == path.skip(last_index(path, '/') + 1),
        forall|i: int| 0 <= i < tail(path).len() ==> #[trigger] tail(path)[i] != '/',
    decreases path.len(),
{
    if path.len() > 0 {
        let rest = path.drop_last();
        assert forall|i: int| 0 <= i < rest.len() implies #[trigger] rest[i] != '\\' && rest[i]
            != ':' by {
            assert(rest[i] == path[i]);
        }
        lemma_tail(rest);
        assert(path.last() != '\\' && path.last() != ':');
        if path.last() == '/' {
            assert(path.skip(path.len() as int) =~= Seq::empty());
        } else {
            let at = last_index(path, '/') + 1;
            assert(path.skip(at) =~= rest.skip(at).push(path.last()));
        }
    } else {
        assert(path.skip(0) =~= Seq::empty());
    }
}

proof fn lemma_last_index(s: Seq<char>, c: char)
    ensures
        -1 <= last_index(s, c) < s.len(),
    decreases s.len(),
{
    if s.len() > 0 {
        lemma_last_index(s.drop_last(), c);
    }
}

} // verus!

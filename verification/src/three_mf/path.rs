//! Paths inside a 3MF package.
use vstd::prelude::*;
use vstd::utf8::is_ascii_chars;

use crate::text;
use crate::text::{ascii_lower, lowercase};

verus! {

/// A path without the slashes that it starts with.
pub open spec fn without_leading_slashes(path: Seq<char>) -> Seq<char>
    decreases path.len(),
{
    if path.len() > 0 && path[0] == '/' {
        without_leading_slashes(path.skip(1))
    } else {
        path
    }
}

/// The form in which paths are compared.
pub open spec fn normalized(path: Seq<char>) -> Seq<char> {
    lowercase(without_leading_slashes(path))
}

/// The form in which paths of ASCII characters are compared.
pub open spec fn ascii_normalized(path: Seq<char>) -> Seq<char> {
    without_leading_slashes(path).map_values(|c: char| ascii_lower(c))
}

/// Paths inside the package are case-insensitive and may start with a slash.
pub fn normalize_path(path: &str) -> (r: String)
    ensures
        r@ == normalized(path@),
        is_ascii_chars(path@) ==> r@ == ascii_normalized(path@),
{
    let cs = text::chars(path);
    let mut start: usize = 0;
    assert(path@.skip(0) =~= path@);
    while start < cs.len() && cs[start] == '/'
        invariant
            cs@ == path@,
            start <= cs@.len(),
            without_leading_slashes(path@.skip(start as int)) == without_leading_slashes(path@),
        decreases cs@.len() - start,
    {
        assert(path@.skip(start as int).skip(1) =~= path@.skip(start + 1));
        start += 1;
    }
    let stripped = text::string(vstd::slice::slice_subrange(cs.as_slice(), start, cs.len()));
    assert(stripped@ =~= path@.skip(start as int));
    assert(stripped@ == without_leading_slashes(path@));
    text::to_lowercase(stripped.as_str())
}

// ---------------------------------------------------------------------------
// Laws
// ---------------------------------------------------------------------------

/// A leading slash makes no difference.
pub proof fn law_leading_slash(path: Seq<char>)
    ensures
        normalized(seq!['/'] + path) == normalized(path),
        ascii_normalized(seq!['/'] + path) == ascii_normalized(path),
{
    assert((seq!['/'] + path).skip(1) =~= path);
}

/// Upper and lower case of ASCII letters make no difference.
pub proof fn law_case(a: Seq<char>, b: Seq<char>)
    requires
        a.map_values(|c: char| ascii_lower(c)) == b.map_values(|c: char| ascii_lower(c)),
    ensures
        ascii_normalized(a) == ascii_normalized(b),
    decreases a.len(),
{
    let lower = |c: char| ascii_lower(c);
    assert(a.map_values(lower).len() == b.map_values(lower).len());
    if a.len() > 0 {
        assert(a.map_values(lower)[0] == b.map_values(lower)[0]);
        if a[0] == '/' {
            assert(a.skip(1).map_values(lower) =~= a.map_values(lower).skip(1));
            assert(b.skip(1).map_values(lower) =~= b.map_values(lower).skip(1));
            law_case(a.skip(1), b.skip(1));
        }
    }
}

/// A normalized path of ASCII characters is its own normal form.
pub proof fn law_normalized_twice(path: Seq<char>)
    ensures
        ascii_normalized(ascii_normalized(path)) == ascii_normalized(path),
    decreases path.len(),
{
    if path.len() > 0 && path[0] == '/' {
        law_normalized_twice(path.skip(1));
    } else {
        let lower = |c: char| ascii_lower(c);
        let once = path.map_values(lower);
        assert(once.map_values(lower) =~= once);
        if path.len() > 0 {
            assert(once[0] == ascii_lower(path[0]));
        }
    }
}

} // verus!

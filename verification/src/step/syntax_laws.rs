//! What holds of the texts that the parser can take.
use vstd::arithmetic::power::{lemma_pow0, lemma_pow1, lemma_pow_adds, pow};
use vstd::prelude::*;
use vstd::utf8::encode_utf8;

use super::syntax::{
    before_blanks, before_digits, code_end, column, in_anchor, in_exponent, integers_fit,
    is_integer, is_parsable, is_parse_error, is_run, line_start, marker_at, mode, nesting,
    parse_report, parse_rests, MAX_NESTING, Mode,
};
use crate::laws::numbers::is_digits;
use crate::numbers::{all_digits, decimal, is_digit};

verus! {

// ---------------------------------------------------------------------------
// Nesting
// ---------------------------------------------------------------------------

/// How often a character occurs among the first.
pub open spec fn occurrences(s: Seq<char>, c: char, n: int) -> int
    decreases n,
{
    if n <= 0 {
        0
    } else if s[n - 1] == c {
        occurrences(s, c, n - 1) + 1
    } else {
        occurrences(s, c, n - 1)
    }
}

/// Whether nothing in a text starts a string, a name in angle brackets or a comment.
pub open spec fn is_plain(s: Seq<char>) -> bool {
    forall|i: int|
        0 <= i < s.len() ==> #[trigger] s[i] != '\'' && s[i] != '<' && s[i] != '*'
}

/// In a text without strings, names in angle brackets and comments, lists are nested as deeply as
/// there are more opening than closing brackets.
pub proof fn law_nesting(s: Seq<char>, n: int)
    requires
        is_plain(s),
        0 <= n <= s.len(),
    ensures
        mode(s, n) == Mode::Code,
        nesting(s, n) == occurrences(s, '(', n) - occurrences(s, ')', n),
    decreases n,
{
    if n > 0 {
        law_nesting(s, n - 1);
        assert(s[n - 1] != '\'' && s[n - 1] != '<' && s[n - 1] != '*');
    }
}

/// Brackets in a string do not count, and the string ends at the next apostrophe.
pub proof fn law_string(s: Seq<char>, i: int, j: int)
    requires
        0 <= i < j < s.len(),
        mode(s, i) == Mode::Code,
        s[i] == '\'',
        s[j] == '\'',
        forall|k: int| i < k < j ==> #[trigger] s[k] != '\'',
    ensures
        mode(s, j + 1) == Mode::Code,
        nesting(s, j + 1) == nesting(s, i),
{
    lemma_string(s, i, j);
}

proof fn lemma_string(s: Seq<char>, i: int, n: int)
    requires
        0 <= i < n <= s.len(),
        mode(s, i) == Mode::Code,
        s[i] == '\'',
        forall|k: int| i < k < n ==> #[trigger] s[k] != '\'',
    ensures
        mode(s, n) == Mode::Text,
        nesting(s, n) == nesting(s, i),
    decreases n,
{
    if n > i + 1 {
        lemma_string(s, i, n - 1);
        assert(s[n - 1] != '\'');
    }
}

/// Brackets in a name in angle brackets do not count, and the name ends at the next closing one.
pub proof fn law_angle(s: Seq<char>, i: int, j: int)
    requires
        0 <= i < j < s.len(),
        mode(s, i) == Mode::Code,
        s[i] == '<',
        s[j] == '>',
        forall|k: int| i < k < j ==> #[trigger] s[k] != '>',
    ensures
        mode(s, j + 1) == Mode::Code,
        nesting(s, j + 1) == nesting(s, i),
{
    lemma_angle(s, i, j);
}

proof fn lemma_angle(s: Seq<char>, i: int, n: int)
    requires
        0 <= i < n <= s.len(),
        mode(s, i) == Mode::Code,
        s[i] == '<',
        forall|k: int| i < k < n ==> #[trigger] s[k] != '>',
    ensures
        mode(s, n) == Mode::Angle,
        nesting(s, n) == nesting(s, i),
    decreases n,
{
    if n > i + 1 {
        lemma_angle(s, i, n - 1);
        assert(s[n - 1] != '>');
    }
}

/// Outside of strings, names in angle brackets and comments, a bracket counts, and only an
/// apostrophe, an opening angle bracket or a star behind a slash starts one of them.
pub proof fn law_code(s: Seq<char>, n: int)
    requires
        0 <= n < s.len(),
        mode(s, n) == Mode::Code,
    ensures
        s[n] != '\'' && s[n] != '<' && !(s[n] == '*' && n > 0 && s[n - 1] == '/') ==> mode(s, n + 1)
            == Mode::Code,
        nesting(s, n + 1) == nesting(s, n) + if s[n] == '(' {
            1int
        } else if s[n] == ')' {
            -1
        } else {
            0
        },
{
}

/// Brackets in a comment do not count, and the comment ends with the next `*/` behind its start.
/// The slash at its end does not start another one.
pub proof fn law_comment(s: Seq<char>, i: int, j: int)
    requires
        0 <= i,
        i + 3 <= j < s.len(),
        mode(s, i) == Mode::Code,
        s[i] == '/',
        s[i + 1] == '*',
        s[j - 1] == '*',
        s[j] == '/',
        forall|k: int| i + 3 <= k < j ==> !(#[trigger] s[k] == '/' && s[k - 1] == '*'),
    ensures
        mode(s, j + 1) == Mode::Code,
        nesting(s, j + 1) == nesting(s, i),
        j + 1 < s.len() && s[j + 1] == '*' ==> mode(s, j + 2) == Mode::Code,
{
    lemma_comment(s, i, j);
    if j - 1 > i + 2 {
        lemma_comment(s, i, j - 1);
    } else {
        lemma_comment(s, i, i + 2);
    }
}

proof fn lemma_comment(s: Seq<char>, i: int, n: int)
    requires
        0 <= i,
        i + 2 <= n <= s.len(),
        mode(s, i) == Mode::Code,
        s[i] == '/',
        s[i + 1] == '*',
        forall|k: int| i + 3 <= k < n ==> !(#[trigger] s[k] == '/' && s[k - 1] == '*'),
    ensures
        mode(s, n) == Mode::Comment,
        nesting(s, n) == nesting(s, i),
    decreases n,
{
    reveal_with_fuel(mode, 3);
    reveal_with_fuel(nesting, 3);
    if n > i + 2 {
        lemma_comment(s, i, n - 1);
        if n == i + 3 {
            // The star that starts the comment does not end it.
            assert(mode(s, n - 2) == Mode::Code);
        } else {
            assert(!(s[n - 1] == '/' && s[n - 2] == '*'));
        }
    } else {
        assert(mode(s, i + 1) == Mode::Code);
    }
}

// ---------------------------------------------------------------------------
// Texts
// ---------------------------------------------------------------------------

/// Whether no more than 18 digits are in a row where they count: in strings, in names in angle
/// brackets and in comments they do not.
pub open spec fn has_short_runs(s: Seq<char>) -> bool {
    forall|i: int|
        0 <= i && i + 19 <= s.len() && is_digits(#[trigger] s.subrange(i, i + 19)) ==> mode(s, i)
            != Mode::Code
}

proof fn lemma_small(digits: Seq<char>)
    requires
        all_digits(digits),
    ensures
        decimal(digits) < pow(10, digits.len()),
    decreases digits.len(),
{
    lemma_pow0(10);
    lemma_pow1(10);
    if digits.len() > 0 {
        let rest = digits.drop_last();
        assert forall|i: int| 0 <= i < rest.len() implies is_digit(#[trigger] rest[i]) by {
            assert(rest[i] == digits[i]);
        }
        lemma_small(rest);
        lemma_pow_adds(10, rest.len(), 1);
        assert(is_digit(digits[digits.len() - 1]));
    }
}

proof fn lemma_pow_18()
    ensures
        pow(10, 18) == 1_000_000_000_000_000_000,
{
    reveal(pow);
    reveal_with_fuel(pow, 20);
}

proof fn lemma_pow_grows(a: nat, b: nat)
    requires
        a <= b,
    ensures
        pow(10, a) <= pow(10, b),
        pow(10, a) > 0,
    decreases b,
{
    lemma_pow0(10);
    lemma_pow1(10);
    if b > 0 {
        lemma_pow_adds(10, (b - 1) as nat, 1);
        if a < b {
            lemma_pow_grows(a, (b - 1) as nat);
        } else {
            lemma_pow_grows((a - 1) as nat, (b - 1) as nat);
            lemma_pow_adds(10, (a - 1) as nat, 1);
        }
    }
}

proof fn lemma_nesting_bounded(s: Seq<char>, n: int)
    requires
        0 <= n <= s.len(),
    ensures
        nesting(s, n) <= occurrences(s, '(', n) <= occurrences(s, '(', s.len() as int),
    decreases n,
{
    if n > 0 {
        lemma_nesting_bounded(s, n - 1);
    }
    lemma_occurrences_grow(s, '(', n, s.len() as int);
}

proof fn lemma_occurrences_grow(s: Seq<char>, c: char, n: int, m: int)
    requires
        0 <= n <= m <= s.len(),
    ensures
        occurrences(s, c, n) <= occurrences(s, c, m),
    decreases m,
{
    if n < m {
        lemma_occurrences_grow(s, c, n, m - 1);
    }
}

proof fn lemma_code_end(s: Seq<char>, k: int)
    requires
        0 <= k <= s.len(),
    ensures
        k <= code_end(s, k) <= s.len(),
        (forall|i: int| k <= i < s.len() ==> !#[trigger] marker_at(s, i)) ==> code_end(s, k)
            == s.len(),
    decreases s.len() - k,
{
    if k < s.len() && !marker_at(s, k) {
        lemma_code_end(s, k + 1);
    }
}

/// The parser can take every text with at most 250 opening brackets and no more than 18 digits in a
/// row where they count.
pub proof fn law_parsable(s: Seq<char>)
    requires
        occurrences(s, '(', s.len() as int) <= 250,
        has_short_runs(s),
    ensures
        is_parsable(s),
{
    let end = code_end(s, 0);
    lemma_code_end(s, 0);
    assert forall|n: int| 0 <= n <= end implies #[trigger] nesting(s, n) <= MAX_NESTING by {
        lemma_nesting_bounded(s, n);
    }
    assert forall|i: int, j: int| #[trigger]
        is_run(s, i, j) && i < end && mode(s, i) == Mode::Code && is_integer(
            s,
            i,
            j,
        ) implies decimal(s.subrange(i, j)) <= i64::MAX by {
        let digits = s.subrange(i, j);
        assert forall|k: int| 0 <= k < digits.len() implies 48 <= (
        #[trigger] digits[k]) as int <= 57 by {
            assert(is_digit(digits[k]));
        }
        if digits.len() > 18 {
            let first = s.subrange(i, i + 19);
            assert forall|k: int| 0 <= k < first.len() implies 48 <= (
            #[trigger] first[k]) as int <= 57 by {
                assert(first[k] == digits[k]);
            }
            assert(is_digits(s.subrange(i, i + 19)));
        }
        lemma_small(digits);
        lemma_pow_grows(digits.len(), 18);
        lemma_pow_18();
    }
}

/// The parser cannot take a text in which lists are nested more than 250 deep before the end of
/// its code.
pub proof fn law_too_deep(s: Seq<char>, n: int)
    requires
        is_plain(s),
        0 <= n <= s.len(),
        forall|i: int| 0 <= i < n ==> !has_marker(s, i),
        occurrences(s, '(', n) - occurrences(s, ')', n) > 250,
    ensures
        !is_parsable(s),
{
    law_nesting(s, n);
    lemma_end_behind(s, 0, n);
    assert(nesting(s, n) > MAX_NESTING);
}

/// Whether the end of the file is announced at a place.
pub open spec fn has_marker(s: Seq<char>, i: int) -> bool {
    i + 17 <= s.len() && s.subrange(i, i + 17) == "END-ISO-10303-21;"@
}

proof fn lemma_end_behind(s: Seq<char>, k: int, n: int)
    requires
        0 <= k <= n <= s.len(),
        forall|i: int| 0 <= i < n ==> !has_marker(s, i),
    ensures
        code_end(s, k) >= n,
    decreases n - k,
{
    reveal_strlit("END-ISO-10303-21;");
    assert("END-ISO-10303-21;"@.len() == 17);
    if k < n {
        assert(!has_marker(s, k));
        assert(!marker_at(s, k));
        lemma_end_behind(s, k + 1, n);
    } else {
        lemma_code_end(s, k);
    }
}

/// Whether a character makes the digits behind it part of a name, a reference or a fraction.
pub open spec fn joins(c: char) -> bool {
    ||| 65 <= c as int <= 90
    ||| 97 <= c as int <= 122
    ||| c == '_' || c == '#' || c == '@' || c == '.'
}

/// The parser cannot take an integer that does not fit in 64 bits: digits in a row that stand by
/// themselves, without a letter, a sign of a name or a point around them.
pub proof fn law_too_large(s: Seq<char>, i: int, j: int)
    requires
        is_plain(s),
        0 <= i < j <= s.len(),
        is_digits(s.subrange(i, j)),
        i > 0 ==> !(48 <= s[i - 1] as int <= 57) && !joins(s[i - 1]),
        j < s.len() ==> !(48 <= s[j] as int <= 57) && s[j] != '.',
        forall|k: int| 0 <= k < j ==> !has_marker(s, k),
        decimal(s.subrange(i, j)) > 0x7fff_ffff_ffff_ffff,
    ensures
        !is_parsable(s),
{
    law_nesting(s, i);
    lemma_end_behind(s, 0, j);
    let digits = s.subrange(i, j);
    assert forall|k: int| 0 <= k < digits.len() implies is_digit(#[trigger] digits[k]) by {
        assert(48 <= digits[k] as int <= 57);
    }
    assert(is_run(s, i, j));
    assert(is_integer(s, i, j));
}

/// The parser cannot take an exponent that does not fit in 64 bits: digits in a row behind an `E`,
/// which may have signs and white space between them, and before the `E` a number with a point in
/// it.
pub proof fn law_large_exponent(s: Seq<char>, point: int, e: int, i: int, j: int)
    requires
        is_plain(s),
        0 < point < e < i < j <= s.len(),
        48 <= s[point - 1] as int <= 57,
        s[point] == '.',
        is_digits(s.subrange(point + 1, e)),
        s[e] == 'E',
        forall|k: int|
            e < k < i ==> #[trigger] s[k] == ' ' || s[k] == '\t' || s[k] == '\r' || s[k] == '\n'
                || s[k] == '+' || s[k] == '-',
        is_digits(s.subrange(i, j)),
        j < s.len() ==> !(48 <= s[j] as int <= 57),
        forall|k: int| 0 <= k < j ==> !has_marker(s, k),
        decimal(s.subrange(i, j)) > 0x7fff_ffff_ffff_ffff,
    ensures
        !is_parsable(s),
{
    law_nesting(s, i);
    lemma_end_behind(s, 0, j);
    let digits = s.subrange(i, j);
    assert forall|k: int| 0 <= k < digits.len() implies is_digit(#[trigger] digits[k]) by {
        assert(48 <= digits[k] as int <= 57);
    }
    assert(is_run(s, i, j));
    lemma_before_signs(s, e, i);
    lemma_before_digits(s, point + 1, e);
    assert(in_exponent(s, i));
    assert(is_integer(s, i, j));
}

proof fn lemma_before_signs(s: Seq<char>, e: int, i: int)
    requires
        0 <= e < i <= s.len(),
        s[e] == 'E',
        forall|k: int|
            e < k < i ==> #[trigger] s[k] == ' ' || s[k] == '\t' || s[k] == '\r' || s[k] == '\n'
                || s[k] == '+' || s[k] == '-',
    ensures
        before_blanks(s, i) == e + 1,
    decreases i,
{
    if i > e + 1 {
        assert(s[i - 1] == ' ' || s[i - 1] == '\t' || s[i - 1] == '\r' || s[i - 1] == '\n' || s[i
            - 1] == '+' || s[i - 1] == '-');
        lemma_before_signs(s, e, i - 1);
    }
}

proof fn lemma_before_digits(s: Seq<char>, from: int, i: int)
    requires
        0 < from <= i <= s.len(),
        is_digits(s.subrange(from, i)),
        !is_digit(s[from - 1]),
    ensures
        before_digits(s, i) == from,
    decreases i,
{
    if from < i {
        let digits = s.subrange(from, i);
        assert(48 <= digits[i - 1 - from] as int <= 57);
        assert(digits[i - 1 - from] == s[i - 1]);
        let rest = s.subrange(from, i - 1);
        assert forall|k: int| 0 <= k < rest.len() implies 48 <= (#[trigger] rest[k]) as int <= 57 by {
            assert(rest[k] == digits[k]);
        }
        lemma_before_digits(s, from, i - 1);
    }
}

/// The parser can take digits of any number that are part of a name, a reference or a fraction, in
/// a text without exponents.
pub proof fn law_parsable_digits(s: Seq<char>)
    requires
        is_plain(s),
        occurrences(s, '(', s.len() as int) <= 250,
        forall|i: int| 0 <= i < s.len() ==> #[trigger] s[i] != 'E',
        forall|i: int, j: int| #[trigger]
            is_run(s, i, j) && j - i > 18 ==> (i > 0 && joins(s[i - 1])) || (j < s.len() && s[j]
                == '.'),
    ensures
        is_parsable(s),
{
    let end = code_end(s, 0);
    lemma_code_end(s, 0);
    assert forall|n: int| 0 <= n <= end implies #[trigger] nesting(s, n) <= MAX_NESTING by {
        lemma_nesting_bounded(s, n);
    }
    assert forall|i: int, j: int| #[trigger]
        is_run(s, i, j) && i < end && mode(s, i) == Mode::Code && is_integer(
            s,
            i,
            j,
        ) implies decimal(s.subrange(i, j)) <= i64::MAX by {
        lemma_before_blanks(s, i);
        lemma_no_anchor(s, i);
        assert(!in_exponent(s, i));
        assert(j - i <= 18);
        lemma_small(s.subrange(i, j));
        lemma_pow_grows((j - i) as nat, 18);
        lemma_pow_18();
    }
}

proof fn lemma_before_blanks(s: Seq<char>, i: int)
    requires
        0 <= i <= s.len(),
    ensures
        0 <= before_blanks(s, i) <= i,
    decreases i,
{
    if i > 0 {
        lemma_before_blanks(s, i - 1);
    }
}

proof fn lemma_no_anchor(s: Seq<char>, n: int)
    requires
        is_plain(s),
        0 <= n <= s.len(),
    ensures
        !in_anchor(s, n),
    decreases n,
{
    if n > 0 {
        lemma_no_anchor(s, n - 1);
        assert(s[n - 1] != '<');
    }
}

/// Whether a name in angle brackets starts at a place and nothing ends the statement behind it, up
/// to another place.
pub open spec fn starts_anchor(s: Seq<char>, at: int, n: int) -> bool {
    &&& 0 <= at < n
    &&& mode(s, at) == Mode::Code
    &&& s[at] == '<'
    &&& forall|k: int| at < k < n ==> !(mode(s, k) == Mode::Code && #[trigger] s[k] == ';')
}

/// A place belongs to a statement with a name in angle brackets if such a name starts before it
/// and the statement has not ended.
pub proof fn law_anchor(s: Seq<char>, n: int)
    requires
        0 <= n <= s.len(),
    ensures
        in_anchor(s, n) <==> exists|at: int| #[trigger] starts_anchor(s, at, n),
    decreases n,
{
    if n > 0 {
        law_anchor(s, n - 1);
        if in_anchor(s, n) {
            if mode(s, n - 1) == Mode::Code && s[n - 1] == '<' {
                assert(starts_anchor(s, n - 1, n));
            } else {
                let at = choose|at: int| #[trigger] starts_anchor(s, at, n - 1);
                assert(starts_anchor(s, at, n));
            }
        }
        if exists|at: int| #[trigger] starts_anchor(s, at, n) {
            let at = choose|at: int| #[trigger] starts_anchor(s, at, n);
            if at < n - 1 {
                assert(!(mode(s, n - 1) == Mode::Code && s[n - 1] == ';'));
                assert(starts_anchor(s, at, n - 1));
            }
        }
    }
}

/// In a statement with a name in angle brackets, digits that stand by themselves are an integer
/// also where a point follows them.
pub proof fn law_too_large_in_anchor(s: Seq<char>, at: int, i: int, j: int)
    requires
        starts_anchor(s, at, i),
        i < j <= s.len(),
        mode(s, i) == Mode::Code,
        is_digits(s.subrange(i, j)),
        !(48 <= s[i - 1] as int <= 57) && !joins(s[i - 1]),
        j < s.len() ==> !(48 <= s[j] as int <= 57),
        forall|k: int| 0 <= k < j ==> !has_marker(s, k),
        decimal(s.subrange(i, j)) > 0x7fff_ffff_ffff_ffff,
    ensures
        !is_parsable(s),
{
    law_anchor(s, i);
    lemma_end_behind(s, 0, j);
    let digits = s.subrange(i, j);
    assert forall|k: int| 0 <= k < digits.len() implies is_digit(#[trigger] digits[k]) by {
        assert(48 <= digits[k] as int <= 57);
    }
    assert(is_run(s, i, j));
    assert(is_integer(s, i, j));
}

/// Whether two texts start with the same characters.
pub open spec fn agree(s: Seq<char>, t: Seq<char>, n: int) -> bool {
    0 <= n <= s.len() && n <= t.len() && forall|i: int| 0 <= i < n ==> #[trigger] s[i] == t[i]
}

proof fn lemma_agree(s: Seq<char>, t: Seq<char>, m: int, n: int)
    requires
        agree(s, t, m),
        0 <= n <= m,
    ensures
        mode(s, n) == mode(t, n),
        n > 0 ==> mode(s, n - 1) == mode(t, n - 1),
        nesting(s, n) == nesting(t, n),
        in_anchor(s, n) == in_anchor(t, n),
        before_blanks(s, n) == before_blanks(t, n),
        0 <= before_blanks(s, n) <= n,
        before_digits(s, n) == before_digits(t, n),
        0 <= before_digits(s, n) <= n,
    decreases n,
{
    if n > 0 {
        lemma_agree(s, t, m, n - 1);
        assert(s[n - 1] == t[n - 1]);
        if n > 1 {
            assert(s[n - 2] == t[n - 2]);
        }
    }
}

/// The end of the file in code ends what counts: whether the parser can take a text does not
/// depend on what follows it.
pub proof fn law_after_end(s: Seq<char>, t: Seq<char>, k: int)
    requires
        0 <= k,
        has_marker(s, k),
        mode(s, k) == Mode::Code,
        forall|i: int| 0 <= i < k ==> !(has_marker(s, i) && mode(s, i) == Mode::Code),
        agree(s, t, k + 17),
    ensures
        is_parsable(s) <==> is_parsable(t),
{
    reveal_strlit("END-ISO-10303-21;");
    assert("END-ISO-10303-21;"@.len() == 17);
    assert(s[k] == 'E') by {
        assert(s.subrange(k, k + 17)[0] == "END-ISO-10303-21;"@[0]);
    }
    assert(t[k] == s[k]);
    lemma_ends_at(s, s, k, 0);
    lemma_ends_at(s, t, k, 0);
    assert(agree(t, s, k + 17));
    if integers_fit(s, k) {
        lemma_integers_agree(s, t, k);
    }
    if integers_fit(t, k) {
        lemma_integers_agree(t, s, k);
    }
    if is_parsable(s) {
        assert forall|n: int| 0 <= n <= k implies #[trigger] nesting(t, n) <= MAX_NESTING by {
            lemma_agree(s, t, k + 17, n);
            assert(nesting(s, n) <= MAX_NESTING);
        }
    }
    if is_parsable(t) {
        assert forall|n: int| 0 <= n <= k implies #[trigger] nesting(s, n) <= MAX_NESTING by {
            lemma_agree(s, t, k + 17, n);
            assert(nesting(t, n) <= MAX_NESTING);
        }
    }
}

proof fn lemma_ends_at(s: Seq<char>, t: Seq<char>, k: int, from: int)
    requires
        0 <= from <= k,
        has_marker(s, k),
        mode(s, k) == Mode::Code,
        forall|i: int| 0 <= i < k ==> !(has_marker(s, i) && mode(s, i) == Mode::Code),
        agree(s, t, k + 17),
    ensures
        code_end(t, from) == k,
    decreases k - from,
{
    reveal_strlit("END-ISO-10303-21;");
    assert("END-ISO-10303-21;"@.len() == 17);
    lemma_agree(s, t, k + 17, from);
    assert(t.subrange(from, from + 17) =~= s.subrange(from, from + 17));
    if from < k {
        assert(!(has_marker(s, from) && mode(s, from) == Mode::Code));
        lemma_ends_at(s, t, k, from + 1);
    }
}

proof fn lemma_integers_agree(s: Seq<char>, t: Seq<char>, k: int)
    requires
        0 <= k,
        agree(s, t, k + 17),
        s[k] == 'E',
        integers_fit(s, k),
    ensures
        integers_fit(t, k),
{
    assert forall|i: int, j: int| #[trigger]
        is_run(t, i, j) && i < k && mode(t, i) == Mode::Code && is_integer(t, i, j) implies decimal(
        t.subrange(i, j),
    ) <= i64::MAX by {
        let digits = t.subrange(i, j);
        assert(j <= k) by {
            if j > k {
                assert(is_digit(digits[k - i]));
                assert(digits[k - i] == t[k]);
                assert(t[k] == s[k]);
            }
        }
        assert(s.subrange(i, j) =~= digits);
        if i > 0 {
            assert(s[i - 1] == t[i - 1]);
        }
        assert(s[j] == t[j]);
        assert(is_run(s, i, j));
        lemma_agree(s, t, k + 17, i);
        let letter = before_blanks(s, i) - 1;
        if letter >= 0 {
            assert(s[letter] == t[letter]);
            lemma_agree(s, t, k + 17, letter);
            let point = before_digits(s, letter) - 1;
            if point > 0 {
                assert(s[point] == t[point]);
                assert(s[point - 1] == t[point - 1]);
            }
        }
        assert(is_integer(s, i, j));
    }
}

// ---------------------------------------------------------------------------
// Reports
// ---------------------------------------------------------------------------

/// The column of a place is how far it is behind the last line break before it.
pub proof fn law_column(bytes: Seq<u8>, n: int, start: int)
    requires
        0 <= start <= n <= bytes.len(),
        start > 0 ==> bytes[start - 1] == 10,
        forall|i: int| start <= i < n ==> #[trigger] bytes[i] != 10,
    ensures
        column(bytes, n) == n - start + 1,
    decreases n,
{
    lemma_line_start(bytes, n, start);
}

proof fn lemma_line_start(bytes: Seq<u8>, n: int, start: int)
    requires
        0 <= start <= n <= bytes.len(),
        start > 0 ==> bytes[start - 1] == 10,
        forall|i: int| start <= i < n ==> #[trigger] bytes[i] != 10,
    ensures
        line_start(bytes, n) == start,
    decreases n,
{
    if n > start {
        assert(bytes[n - 1] != 10);
        lemma_line_start(bytes, n - 1, start);
    }
}

/// An error is reported if none of its places is further along its line than 65535, and its
/// places are told in any case.
pub proof fn law_report(text: Seq<char>, rests: Seq<usize>, report: Option<String>)
    requires
        is_parse_error(text, rests, report),
    ensures
        rests == parse_rests(text),
        report is Some <==> forall|i: int|
            0 <= i < rests.len() ==> column(
                encode_utf8(text),
                encode_utf8(text).len() - #[trigger] rests[i],
            ) <= 65535,
        report matches Some(said) ==> said@ == parse_report(text),
{
}

} // verus!

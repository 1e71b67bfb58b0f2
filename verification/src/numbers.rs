//! Numbers as text.
use vstd::prelude::*;
use vstd::slice::slice_subrange;

use crate::text::{ascii_lower, is_white_space, string, white_space};

verus! {

// ---------------------------------------------------------------------------
// Words
// ---------------------------------------------------------------------------

/// Text without the white space that it starts with.
pub open spec fn trim_start(s: Seq<char>) -> Seq<char>
    decreases s.len(),
{
    if s.len() > 0 && is_white_space(s[0]) {
        trim_start(s.skip(1))
    } else {
        s
    }
}

/// Text without the white space that it ends with.
pub open spec fn trim_end(s: Seq<char>) -> Seq<char>
    decreases s.len(),
{
    if s.len() > 0 && is_white_space(s.last()) {
        trim_end(s.drop_last())
    } else {
        s
    }
}

/// Text without the white space around it.
pub open spec fn trim(s: Seq<char>) -> Seq<char> {
    trim_end(trim_start(s))
}

/// The words of a text: what stands between white space.
pub open spec fn words(s: Seq<char>) -> Seq<Seq<char>>
    decreases s.len(),
{
    if s.len() == 0 {
        Seq::empty()
    } else {
        let before = words(s.drop_last());
        let c = s.last();
        if is_white_space(c) {
            before
        } else if ends_in_word(s.drop_last()) {
            before.drop_last().push(before.last().push(c))
        } else {
            before.push(seq![c])
        }
    }
}

/// Whether a text ends in the middle of a word.
pub open spec fn ends_in_word(s: Seq<char>) -> bool {
    s.len() > 0 && !is_white_space(s.last())
}

/// The characters without the white space around them.
pub(crate) fn trimmed(cs: &[char]) -> (r: &[char])
    ensures
        r@ == trim(cs@),
{
    let mut start: usize = 0;
    assert(cs@.skip(0) =~= cs@);
    while start < cs.len() && white_space(cs[start])
        invariant
            start <= cs@.len(),
            trim_start(cs@.skip(start as int)) == trim_start(cs@),
        decreases cs@.len() - start,
    {
        assert(cs@.skip(start as int).skip(1) =~= cs@.skip(start + 1));
        start += 1;
    }
    let ghost rest = cs@.skip(start as int);
    let mut end: usize = cs.len();
    assert(cs@.subrange(start as int, end as int) =~= rest);
    while end > start && white_space(cs[end - 1])
        invariant
            start <= end <= cs@.len(),
            trim_end(cs@.subrange(start as int, end as int)) == trim_end(rest),
        decreases end,
    {
        assert(cs@.subrange(start as int, end as int).drop_last() =~= cs@.subrange(
            start as int,
            end - 1,
        ));
        end -= 1;
    }
    slice_subrange(cs, start, end)
}

/// The words of several characters, as their models.
pub open spec fn words_view(ws: Seq<Vec<char>>) -> Seq<Seq<char>> {
    ws.map_values(|w: Vec<char>| w@)
}

/// The words of several characters.
pub(crate) fn split_words(cs: &[char]) -> (r: Vec<Vec<char>>)
    ensures
        words_view(r@) == words(cs@),
{
    let mut r: Vec<Vec<char>> = Vec::new();
    // The word that is being read, when there is one.
    let mut word: Option<Vec<char>> = None;
    assert(words_view(r@) =~= words(cs@.take(0)));
    for i in 0..cs.len()
        invariant
            word is Some <==> ends_in_word(cs@.take(i as int)),
            words(cs@.take(i as int)) == match word {
                Some(w) => words_view(r@).push(w@),
                None => words_view(r@),
            },
    {
        let c = cs[i];
        assert(cs@.take(i + 1).drop_last() =~= cs@.take(i as int));
        assert(cs@.take(i + 1).last() == c);
        let ghost before = words_view(r@);
        if white_space(c) {
            if let Some(w) = word.take() {
                let ghost last = w@;
                r.push(w);
                assert(words_view(r@) =~= before.push(last));
            }
        } else {
            let mut w = match word.take() {
                Some(w) => w,
                None => Vec::new(),
            };
            let ghost last = w@;
            w.push(c);
            proof {
                if ends_in_word(cs@.take(i as int)) {
                    assert(before.push(last).drop_last() =~= before);
                } else {
                    assert(last.push(c) =~= seq![c]);
                }
            }
            word = Some(w);
        }
    }
    assert(cs@.take(cs@.len() as int) =~= cs@);
    if let Some(w) = word {
        let ghost before = words_view(r@);
        let ghost last = w@;
        r.push(w);
        assert(words_view(r@) =~= before.push(last));
    }
    r
}

// ---------------------------------------------------------------------------
// Whole numbers
// ---------------------------------------------------------------------------

/// A decimal digit.
pub open spec fn is_digit(c: char) -> bool {
    '0' <= c <= '9'
}

/// Whether every character is a decimal digit.
pub open spec fn all_digits(s: Seq<char>) -> bool {
    forall|i: int| 0 <= i < s.len() ==> is_digit(#[trigger] s[i])
}

/// The number that decimal digits stand for.
pub open spec fn decimal(s: Seq<char>) -> nat
    decreases s.len(),
{
    if s.len() == 0 {
        0
    } else {
        10 * decimal(s.drop_last()) + (s.last() as nat - '0' as nat) as nat
    }
}

/// Text without a plus sign in front.
pub open spec fn without_plus(s: Seq<char>) -> Seq<char> {
    if s.len() > 0 && s[0] == '+' {
        s.skip(1)
    } else {
        s
    }
}

/// The whole number that a text stands for, when it is at most `max`: decimal digits, possibly
/// with a plus sign in front.
pub open spec fn whole(s: Seq<char>, max: u64) -> Option<u64> {
    let digits = without_plus(s);
    if digits.len() > 0 && all_digits(digits) && decimal(digits) <= max {
        Some(decimal(digits) as u64)
    } else {
        None
    }
}

proof fn lemma_decimal_grows(s: Seq<char>, n: int)
    requires
        all_digits(s),
        0 <= n <= s.len(),
    ensures
        decimal(s.take(n)) <= decimal(s),
    decreases s.len() - n,
{
    if n < s.len() {
        assert(s.take(n + 1).drop_last() =~= s.take(n));
        assert(is_digit(s[n]));
        lemma_decimal_grows(s, n + 1);
    } else {
        assert(s.take(n) =~= s);
    }
}

/// Whether a character is a decimal digit.
fn digit(c: char) -> (r: bool)
    ensures
        r == is_digit(c),
{
    '0' <= c && c <= '9'
}

/// The whole number that characters stand for, when it is at most `max`.
pub(crate) fn parse_whole(cs: &[char], max: u64) -> (r: Option<u64>)
    ensures
        r == whole(cs@, max),
{
    let start: usize = if cs.len() > 0 && cs[0] == '+' {
        1
    } else {
        0
    };
    let ghost digits = without_plus(cs@);
    assert(digits =~= cs@.skip(start as int));
    if cs.len() == start {
        return None;
    }
    let mut n: u64 = 0;
    for i in start..cs.len()
        invariant
            start <= i <= cs@.len(),
            digits == without_plus(cs@),
            digits == cs@.skip(start as int),
            n <= max,
            n == decimal(digits.take(i - start)),
            forall|j: int| 0 <= j < i - start ==> is_digit(#[trigger] digits[j]),
    {
        let c = cs[i];
        let ghost k = i - start;
        assert(digits[k] == c);
        assert(digits.take(k + 1).drop_last() =~= digits.take(k));
        if !digit(c) {
            assert(!all_digits(digits));
            return None;
        }
        let d = (c as u32 - '0' as u32) as u64;
        assert(decimal(digits.take(k + 1)) == 10 * n + d);
        if d > max || n > (max - d) / 10 {
            proof {
                if all_digits(digits) {
                    lemma_decimal_grows(digits, k + 1);
                }
            }
            return None;
        }
        n = 10 * n + d;
    }
    assert(digits.take(digits.len() as int) =~= digits);
    Some(n)
}

// ---------------------------------------------------------------------------
// Real numbers
// ---------------------------------------------------------------------------

/// Text without a sign in front.
pub open spec fn without_sign(s: Seq<char>) -> Seq<char> {
    if s.len() > 0 && (s[0] == '+' || s[0] == '-') {
        s.skip(1)
    } else {
        s
    }
}

/// Digits with at most one point among them.
pub open spec fn is_mantissa(s: Seq<char>) -> bool {
    ||| s.len() > 0 && all_digits(s)
    ||| s.len() > 1 && exists|d: int|
        0 <= d < s.len() && #[trigger] s[d] == '.' && all_digits(s.take(d)) && all_digits(
            s.skip(d + 1),
        )
}

/// Digits, possibly with a sign in front.
pub open spec fn is_exponent(s: Seq<char>) -> bool {
    without_sign(s).len() > 0 && all_digits(without_sign(s))
}

/// The letter in front of an exponent.
pub open spec fn is_e(c: char) -> bool {
    c == 'e' || c == 'E'
}

/// A number without a sign, in decimal notation, possibly with an exponent.
pub open spec fn is_unsigned_number(s: Seq<char>) -> bool {
    ||| is_mantissa(s)
    ||| exists|e: int|
        0 <= e < s.len() && is_e(#[trigger] s[e]) && is_mantissa(s.take(e)) && is_exponent(
            s.skip(e + 1),
        )
}

/// Whether a text is a word in any mixture of upper and lower case.
pub open spec fn is_word(s: Seq<char>, word: Seq<char>) -> bool {
    s.map_values(|c: char| ascii_lower(c)) == word
}

/// A real number: `inf`, `infinity`, `nan` or a number, possibly with a sign in front. This is
/// the notation that the standard library reads floating-point numbers in.
pub open spec fn is_real(s: Seq<char>) -> bool {
    let u = without_sign(s);
    ||| is_word(u, "inf"@)
    ||| is_word(u, "infinity"@)
    ||| is_word(u, "nan"@)
    ||| is_unsigned_number(u)
}

/// A real number as text.
pub struct Real {
    text: String,
}

impl View for Real {
    type V = Seq<char>;

    closed spec fn view(&self) -> Seq<char> {
        self.text@
    }
}

impl Real {
    #[verifier::type_invariant]
    spec fn inv(self) -> bool {
        is_real(self.text@)
    }

    /// The real number that characters stand for.
    pub(crate) fn from_chars(cs: &[char]) -> (r: Option<Real>)
        ensures
            r is Some <==> is_real(cs@),
            r matches Some(number) ==> number@ == cs@,
    {
        let u = unsigned(cs);
        if word(u, "inf") || word(u, "infinity") || word(u, "nan") || unsigned_number(u) {
            Some(Real { text: string(cs) })
        } else {
            None
        }
    }

    /// The real number that a text stands for.
    pub fn parse(text: &str) -> (r: Option<Real>)
        ensures
            r is Some <==> is_real(text@),
            r matches Some(number) ==> number@ == text@,
    {
        let cs = crate::text::chars(text);
        Real::from_chars(cs.as_slice())
    }

    /// The text, in the notation that the standard library reads floating-point numbers in.
    pub fn text(&self) -> (r: &str)
        ensures
            r@ == self@,
            is_real(r@),
    {
        proof {
            use_type_invariant(self);
        }
        self.text.as_str()
    }
}

/// Whether every character is a decimal digit.
fn digits(cs: &[char]) -> (r: bool)
    ensures
        r == all_digits(cs@),
{
    for i in 0..cs.len()
        invariant
            forall|j: int| 0 <= j < i ==> is_digit(#[trigger] cs@[j]),
    {
        if !digit(cs[i]) {
            assert(!is_digit(cs@[i as int]));
            return false;
        }
    }
    true
}

/// The characters without a sign in front.
fn unsigned(cs: &[char]) -> (r: &[char])
    ensures
        r@ == without_sign(cs@),
{
    if cs.len() > 0 && (cs[0] == '+' || cs[0] == '-') {
        let r = slice_subrange(cs, 1, cs.len());
        assert(r@ =~= cs@.skip(1));
        r
    } else {
        cs
    }
}

/// Whether characters are digits with at most one point among them.
fn mantissa(cs: &[char]) -> (r: bool)
    ensures
        r == is_mantissa(cs@),
{
    for d in 0..cs.len()
        invariant
            forall|j: int| 0 <= j < d ==> is_digit(#[trigger] cs@[j]),
    {
        let c = cs[d];
        if !digit(c) {
            let ghost s = cs@;
            assert(!all_digits(s)) by {
                assert(!is_digit(s[d as int]));
            }
            if c != '.' {
                assert(!is_mantissa(s)) by {
                    if is_mantissa(s) {
                        let k = choose|k: int|
                            0 <= k < s.len() && #[trigger] s[k] == '.' && all_digits(s.take(k))
                                && all_digits(s.skip(k + 1));
                        if k > d {
                            assert(is_digit(s.take(k)[d as int]));
                        } else {
                            assert(is_digit(s[k]));
                        }
                    }
                }
                return false;
            }
            let rest = slice_subrange(cs, d + 1, cs.len());
            assert(rest@ =~= s.skip(d + 1));
            let r = cs.len() > 1 && digits(rest);
            proof {
                assert(all_digits(s.take(d as int)));
                if is_mantissa(s) {
                    let k = choose|k: int|
                        0 <= k < s.len() && #[trigger] s[k] == '.' && all_digits(s.take(k))
                            && all_digits(s.skip(k + 1));
                    if k > d {
                        assert(is_digit(s.take(k)[d as int]));
                    } else if k < d {
                        assert(is_digit(s[k]));
                    }
                    assert(k == d);
                }
            }
            return r;
        }
    }
    cs.len() > 0
}

/// Whether characters are a number without a sign.
fn unsigned_number(cs: &[char]) -> (r: bool)
    ensures
        r == is_unsigned_number(cs@),
{
    let ghost s = cs@;
    for e in 0..cs.len()
        invariant
            s == cs@,
            forall|j: int| 0 <= j < e ==> !is_e(#[trigger] s[j]),
    {
        if cs[e] == 'e' || cs[e] == 'E' {
            let before = slice_subrange(cs, 0, e);
            let after = unsigned(slice_subrange(cs, e + 1, cs.len()));
            assert(before@ =~= s.take(e as int));
            assert(s.subrange(e + 1, s.len() as int) =~= s.skip(e + 1));
            let r = mantissa(before) && after.len() > 0 && digits(after);
            proof {
                assert(is_e(s[e as int]));
                lemma_no_e_in_mantissa(s, e as int);
                if is_unsigned_number(s) {
                    let k = choose|k: int|
                        0 <= k < s.len() && is_e(#[trigger] s[k]) && is_mantissa(s.take(k))
                            && is_exponent(s.skip(k + 1));
                    if k > e {
                        lemma_no_e_in_mantissa(s.take(k), e as int);
                    }
                    assert(k == e);
                }
            }
            return r;
        }
    }
    mantissa(cs)
}

proof fn lemma_no_e_in_mantissa(s: Seq<char>, e: int)
    requires
        0 <= e < s.len(),
        is_e(s[e]),
    ensures
        !is_mantissa(s),
{
    assert(!is_digit(s[e]));
    if is_mantissa(s) {
        let d = choose|d: int|
            0 <= d < s.len() && #[trigger] s[d] == '.' && all_digits(s.take(d)) && all_digits(
                s.skip(d + 1),
            );
        if e < d {
            assert(is_digit(s.take(d)[e]));
        } else if e > d {
            assert(is_digit(s.skip(d + 1)[e - d - 1]));
        }
    }
}

/// Whether characters are a word in any mixture of upper and lower case.
fn word(cs: &[char], w: &str) -> (r: bool)
    ensures
        r == is_word(cs@, w@),
{
    let wanted = crate::text::chars(w);
    let ghost lower = cs@.map_values(|c: char| ascii_lower(c));
    if cs.len() != wanted.len() {
        return false;
    }
    for i in 0..cs.len()
        invariant
            wanted@ == w@,
            cs@.len() == wanted@.len(),
            lower == cs@.map_values(|c: char| ascii_lower(c)),
            forall|j: int| 0 <= j < i ==> #[trigger] lower[j] == w@[j],
    {
        if crate::text::lower(cs[i]) != wanted[i] {
            assert(lower[i as int] != w@[i as int]);
            return false;
        }
    }
    assert(lower =~= w@);
    true
}

} // verus!

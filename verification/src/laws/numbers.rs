//! What holds of words and numbers.
use vstd::arithmetic::power::{lemma_pow0, lemma_pow1, lemma_pow_adds, pow};
use vstd::prelude::*;

use crate::numbers::{
    all_digits, decimal, ends_in_word, is_digit, is_e, is_exponent, is_mantissa, is_real,
    is_unsigned_number, is_word, trim, trim_end, trim_start, whole, without_plus, without_sign,
    words,
};
use crate::text::{ascii_lower, ascii_lowercase, is_white_space, white_space};

verus! {

// ---------------------------------------------------------------------------
// Characters
// ---------------------------------------------------------------------------

/// Whether a text is a name in lower case, but for some of its letters, which are in upper case.
pub open spec fn spells(s: Seq<char>, name: Seq<char>) -> bool {
    &&& s.len() == name.len()
    &&& forall|i: int|
        0 <= i < s.len() ==> {
            ||| #[trigger] s[i] == name[i]
            ||| 97 <= name[i] as int <= 122 && s[i] as int == name[i] as int - 32
        }
}

/// The ASCII lower case of a text is a name without upper case letters if and only if the text
/// spells the name.
pub proof fn law_lower_case(s: Seq<char>, name: Seq<char>)
    requires
        forall|i: int| 0 <= i < name.len() ==> !('A' <= #[trigger] name[i] <= 'Z'),
    ensures
        ascii_lowercase(s) == name <==> spells(s, name),
{
    let lower = ascii_lowercase(s);
    if spells(s, name) {
        assert forall|i: int| 0 <= i < lower.len() implies lower[i] == name[i] by {
            assert(lower[i] == ascii_lower(s[i]));
            assert(!('A' <= name[i] <= 'Z'));
        }
        assert(lower =~= name);
    }
    if lower == name {
        assert forall|i: int| 0 <= i < s.len() implies {
            ||| #[trigger] s[i] == name[i]
            ||| 97 <= name[i] as int <= 122 && s[i] as int == name[i] as int - 32
        } by {
            assert(lower[i] == ascii_lower(s[i]));
        }
    }
}

/// The white space of ASCII is the blank and the characters from the tabulator to the carriage
/// return. No printable character is white space.
pub proof fn law_white_space(c: char)
    ensures
        (c as int) < 128 ==> (is_white_space(c) <==> c as int == 32 || 9 <= c as int <= 13),
        is_white_space(c) <==> {
            let n = c as int;
            ||| 9 <= n <= 13
            ||| n == 0x20 || n == 0x85 || n == 0xa0 || n == 0x1680
            ||| 0x2000 <= n <= 0x200a
            ||| n == 0x2028 || n == 0x2029 || n == 0x202f || n == 0x205f || n == 0x3000
        },
{
}

/// White space is told from other characters.
pub proof fn law_white_space_function(c: char, r: bool)
    requires
        call_ensures(white_space, (c,), r),
    ensures
        r == is_white_space(c),
{
}

// ---------------------------------------------------------------------------
// Words
// ---------------------------------------------------------------------------

/// A part of a text with nothing but white space around it, and none at its own start and end, is
/// what trimming leaves.
pub proof fn law_trim(s: Seq<char>, i: int, j: int)
    requires
        0 <= i <= j <= s.len(),
        forall|k: int| 0 <= k < i ==> is_white_space(#[trigger] s[k]),
        forall|k: int| j <= k < s.len() ==> is_white_space(#[trigger] s[k]),
        i < j ==> !is_white_space(s[i]) && !is_white_space(s[j - 1]),
    ensures
        trim(s) == s.subrange(i, j),
{
    lemma_trim_start(s, i, j);
    if i < j {
        let rest = s.skip(i);
        assert forall|k: int| j - i <= k < rest.len() implies is_white_space(#[trigger] rest[k]) by {
            assert(rest[k] == s[k + i]);
        }
        lemma_trim_end(rest, j - i);
        assert(rest.take(j - i) =~= s.subrange(i, j));
    } else {
        assert(s.subrange(i, j) =~= Seq::empty());
        assert(trim_end(Seq::<char>::empty()) =~= Seq::empty());
    }
}

proof fn lemma_trim_start(s: Seq<char>, i: int, j: int)
    requires
        0 <= i <= j <= s.len(),
        forall|k: int| 0 <= k < i ==> is_white_space(#[trigger] s[k]),
        i == j ==> forall|k: int| j <= k < s.len() ==> is_white_space(#[trigger] s[k]),
        i < j ==> !is_white_space(s[i]),
    ensures
        i < j ==> trim_start(s) == s.skip(i),
        i == j ==> trim_start(s) == Seq::<char>::empty(),
    decreases s.len(),
{
    if s.len() > 0 && is_white_space(s[0]) {
        let rest = s.skip(1);
        assert forall|k: int| 0 <= k < rest.len() && (k < i - 1 || i == j) implies is_white_space(
            #[trigger] rest[k],
        ) by {
            assert(rest[k] == s[k + 1]);
        }
        if i == j {
            lemma_trim_start(rest, 0, 0);
        } else {
            lemma_trim_start(rest, i - 1, j - 1);
            assert(rest.skip(i - 1) =~= s.skip(i));
        }
    } else if i < j {
        assert(s.skip(0) =~= s);
    } else {
        assert(s =~= Seq::empty());
    }
}

proof fn lemma_trim_end(s: Seq<char>, j: int)
    requires
        0 < j <= s.len(),
        forall|k: int| j <= k < s.len() ==> is_white_space(#[trigger] s[k]),
        !is_white_space(s[j - 1]),
    ensures
        trim_end(s) == s.take(j),
    decreases s.len(),
{
    if j < s.len() {
        assert(is_white_space(s[s.len() - 1]));
        lemma_trim_end(s.drop_last(), j);
        assert(s.drop_last().take(j) =~= s.take(j));
    } else {
        assert(s.take(j) =~= s);
    }
}

/// A text without white space around it stays as it is.
pub proof fn law_trimmed(s: Seq<char>)
    requires
        s.len() > 0 ==> !is_white_space(s[0]) && !is_white_space(s.last()),
    ensures
        trim(s) == s,
{
    law_trim(s, 0, s.len() as int);
    assert(s.subrange(0, s.len() as int) =~= s);
}

/// What is left of a text is a part of it with nothing but white space around it.
pub proof fn law_trim_finds(s: Seq<char>) -> (r: (int, int))
    ensures
        0 <= r.0 <= r.1 <= s.len(),
        forall|k: int| 0 <= k < r.0 ==> is_white_space(#[trigger] s[k]),
        forall|k: int| r.1 <= k < s.len() ==> is_white_space(#[trigger] s[k]),
        r.0 < r.1 ==> !is_white_space(s[r.0]) && !is_white_space(s[r.1 - 1]),
        trim(s) == s.subrange(r.0, r.1),
    decreases s.len(),
{
    if s.len() > 0 && is_white_space(s[0]) {
        let rest = s.skip(1);
        let (i, j) = law_trim_finds(rest);
        assert forall|k: int| (0 <= k < i + 1 || j + 1 <= k < s.len()) implies is_white_space(
            #[trigger] s[k],
        ) by {
            if k > 0 {
                assert(s[k] == rest[k - 1]);
            }
        }
        law_trim(s, i + 1, j + 1);
        (i + 1, j + 1)
    } else if s.len() > 0 && is_white_space(s.last()) {
        let rest = s.drop_last();
        let (i, j) = law_trim_finds(rest);
        assert forall|k: int| (0 <= k < i || j <= k < s.len()) implies is_white_space(
            #[trigger] s[k],
        ) by {
            if k < rest.len() {
                assert(s[k] == rest[k]);
            }
        }
        law_trim(s, i, j);
        (i, j)
    } else {
        law_trim(s, 0, s.len() as int);
        (0, s.len() as int)
    }
}

/// White space divides a text: its words are those before it and those behind it, in order.
pub proof fn law_words_divided(a: Seq<char>, c: char, b: Seq<char>)
    requires
        is_white_space(c),
    ensures
        words(a.push(c) + b) == words(a) + words(b),
    decreases b.len(),
{
    let s = a.push(c) + b;
    if b.len() == 0 {
        assert(s =~= a.push(c));
        assert(s.drop_last() =~= a);
        assert(words(b) =~= Seq::empty());
        assert(words(a) + words(b) =~= words(a));
    } else {
        let rest = b.drop_last();
        law_words_divided(a, c, rest);
        assert(s.drop_last() =~= a.push(c) + rest);
        assert(s.last() == b.last());
        assert(ends_in_word(s.drop_last()) == ends_in_word(rest)) by {
            if rest.len() > 0 {
                assert((a.push(c) + rest).last() == rest.last());
            } else {
                assert((a.push(c) + rest).last() == c);
            }
        }
        if is_white_space(b.last()) {
        } else if ends_in_word(rest) {
            lemma_words_exist(rest);
            let before = words(a) + words(rest);
            assert(before.last() == words(rest).last());
            assert(before.drop_last() =~= words(a) + words(rest).drop_last());
            assert(words(s) =~= words(a) + words(b));
        } else {
            assert(words(s) =~= words(a) + words(b));
        }
    }
}

proof fn lemma_words_exist(s: Seq<char>)
    requires
        ends_in_word(s),
    ensures
        words(s).len() > 0,
{
    if ends_in_word(s.drop_last()) {
    }
}

/// A text without white space is one word, unless it is empty.
pub proof fn law_one_word(s: Seq<char>)
    requires
        forall|i: int| 0 <= i < s.len() ==> !is_white_space(#[trigger] s[i]),
    ensures
        s.len() > 0 ==> words(s) == seq![s],
        s.len() == 0 ==> words(s) == Seq::<Seq<char>>::empty(),
    decreases s.len(),
{
    if s.len() > 0 {
        let rest = s.drop_last();
        assert forall|i: int| 0 <= i < rest.len() implies !is_white_space(#[trigger] rest[i]) by {
            assert(rest[i] == s[i]);
        }
        law_one_word(rest);
        assert(!is_white_space(s[s.len() - 1]));
        if rest.len() > 0 {
            assert(!is_white_space(rest[rest.len() - 1]));
            assert(rest.push(s.last()) =~= s);
            assert(seq![rest].drop_last() =~= Seq::empty());
            assert(words(s) =~= seq![s]);
        } else {
            assert(seq![s.last()] =~= s);
            assert(words(s) =~= seq![s]);
        }
    }
}

// ---------------------------------------------------------------------------
// Whole numbers
// ---------------------------------------------------------------------------

/// Whether every character is one from `0` to `9`.
pub open spec fn is_digits(s: Seq<char>) -> bool {
    forall|i: int| 0 <= i < s.len() ==> 48 <= (#[trigger] s[i]) as int <= 57
}

/// Digits stand for a number in positions: those in front count for so many powers of ten more as
/// there are digits behind them. A single digit stands for the distance of its code from that
/// of `0`.
pub proof fn law_decimal(a: Seq<char>, b: Seq<char>, c: char)
    requires
        is_digits(a),
        is_digits(b),
        48 <= c as int <= 57,
    ensures
        decimal(a + b) == pow(10, b.len()) * decimal(a) + decimal(b),
        decimal(seq![c]) == c as int - 48,
    decreases b.len(),
{
    lemma_pow0(10);
    lemma_pow1(10);
    reveal_with_fuel(decimal, 2);
    assert(seq![c].drop_last() =~= Seq::empty());
    if b.len() == 0 {
        assert(a + b =~= a);
    } else {
        let rest = b.drop_last();
        assert forall|i: int| 0 <= i < rest.len() implies 48 <= (#[trigger] rest[i]) as int <= 57 by {
            assert(rest[i] == b[i]);
        }
        law_decimal(a, rest, c);
        assert((a + b).drop_last() =~= a + rest);
        assert(b[b.len() - 1] == b.last());
        lemma_pow_adds(10, rest.len(), 1);
        assert(pow(10, b.len()) == pow(10, rest.len()) * 10);
        let p = pow(10, rest.len());
        let d = decimal(a) as int;
        assert(10 * (p * d) == (p * 10) * d) by (nonlinear_arith);
    }
}

/// A whole number is digits, possibly with a plus sign in front, that stand for at most so much.
pub proof fn law_whole(digits: Seq<char>, max: u64)
    requires
        is_digits(digits),
        digits.len() > 0,
    ensures
        whole(digits, max) == whole(seq!['+'] + digits, max),
        whole(digits, max) matches Some(n) ==> n == decimal(digits),
        whole(digits, max) is Some <==> decimal(digits) <= max,
{
    assert((seq!['+'] + digits).skip(1) =~= digits);
    assert(digits[0] != '+');
}

/// What is not digits, possibly with a plus sign in front, is no whole number.
pub proof fn law_whole_only(s: Seq<char>, max: u64)
    requires
        whole(s, max) is Some,
    ensures
        s.len() > 0,
        s[0] == '+' ==> s.len() > 1 && is_digits(s.skip(1)),
        s[0] != '+' ==> is_digits(s),
{
    let digits = without_plus(s);
    assert forall|i: int| 0 <= i < digits.len() implies 48 <= (#[trigger] digits[i]) as int <= 57 by {
        assert(is_digit(digits[i]));
    }
}

// ---------------------------------------------------------------------------
// Real numbers
// ---------------------------------------------------------------------------

/// A sign in front makes no difference to whether a text is a real number.
pub proof fn law_real_sign(s: Seq<char>)
    requires
        s.len() > 0 ==> s[0] != '+' && s[0] != '-',
    ensures
        is_real(seq!['-'] + s) == is_real(s),
        is_real(seq!['+'] + s) == is_real(s),
{
    assert((seq!['-'] + s).skip(1) =~= s);
    assert((seq!['+'] + s).skip(1) =~= s);
}

/// Digits, digits with a point somewhere, and either of them with an exponent behind are real
/// numbers.
pub proof fn law_real(a: Seq<char>, b: Seq<char>, e: char, exponent: Seq<char>)
    requires
        is_digits(a),
        is_digits(b),
        a.len() + b.len() > 0,
        e == 'e' || e == 'E',
        is_digits(exponent),
        exponent.len() > 0,
    ensures
        is_real(a + b),
        is_real(a.push('.') + b),
        is_real((a + b).push(e) + exponent),
        is_real((a.push('.') + b).push(e) + exponent),
        is_real((a + b).push(e).push('-') + exponent),
        is_real((a.push('.') + b).push(e).push('-') + exponent),
        is_real((a + b).push(e).push('+') + exponent),
        is_real((a.push('.') + b).push(e).push('+') + exponent),
{
    let whole_part = a + b;
    let pointed = a.push('.') + b;
    assert forall|i: int| 0 <= i < whole_part.len() implies is_digit(#[trigger] whole_part[i]) by {
        if i < a.len() {
            assert(whole_part[i] == a[i]);
        } else {
            assert(whole_part[i] == b[i - a.len()]);
        }
    }
    assert(is_mantissa(whole_part));
    assert(is_mantissa(pointed)) by {
        let d = a.len() as int;
        assert(pointed[d] == '.');
        assert(pointed.take(d) =~= a);
        assert(pointed.skip(d + 1) =~= b);
        assert(all_digits(a));
        assert(all_digits(b));
    }
    lemma_with_exponent(whole_part, e, exponent);
    lemma_with_exponent(pointed, e, exponent);
    assert(is_digit(whole_part[0]));
    if a.len() > 0 {
        assert(pointed[0] == a[0]);
    }
}

proof fn lemma_with_exponent(m: Seq<char>, e: char, exponent: Seq<char>)
    requires
        is_mantissa(m),
        m.len() > 0,
        48 <= m[0] as int <= 57 || m[0] == '.',
        e == 'e' || e == 'E',
        is_digits(exponent),
        exponent.len() > 0,
    ensures
        is_real(m.push(e) + exponent),
        is_real(m.push(e).push('-') + exponent),
        is_real(m.push(e).push('+') + exponent),
{
    let plain = m.push(e) + exponent;
    let minus = m.push(e).push('-') + exponent;
    let plus = m.push(e).push('+') + exponent;
    let at = m.len() as int;
    assert(plain[0] == m[0] && minus[0] == m[0] && plus[0] == m[0]);
    assert(plain[at] == e && minus[at] == e && plus[at] == e);
    assert(plain.take(at) =~= m && minus.take(at) =~= m && plus.take(at) =~= m);
    assert(plain.skip(at + 1) =~= exponent);
    assert(minus.skip(at + 1) =~= seq!['-'] + exponent);
    assert(plus.skip(at + 1) =~= seq!['+'] + exponent);
    assert((seq!['-'] + exponent).skip(1) =~= exponent);
    assert((seq!['+'] + exponent).skip(1) =~= exponent);
    assert(48 <= exponent[0] as int <= 57);
    assert(is_exponent(plain.skip(at + 1)));
    assert(is_exponent(minus.skip(at + 1)));
    assert(is_exponent(plus.skip(at + 1)));
    assert(is_e(plain[at]) && is_e(minus[at]) && is_e(plus[at]));
    assert(is_unsigned_number(plain) && is_unsigned_number(minus) && is_unsigned_number(plus));
}

/// The words for what is no ordinary number are real numbers, in any case.
pub proof fn law_real_words(s: Seq<char>)
    requires
        spells(s, seq!['i', 'n', 'f']) || spells(s, seq!['n', 'a', 'n']) || spells(
            s,
            seq!['i', 'n', 'f', 'i', 'n', 'i', 't', 'y'],
        ),
    ensures
        is_real(s),
{
    reveal_strlit("inf");
    reveal_strlit("nan");
    reveal_strlit("infinity");
    assert("inf"@ =~= seq!['i', 'n', 'f']);
    assert("nan"@ =~= seq!['n', 'a', 'n']);
    assert("infinity"@ =~= seq!['i', 'n', 'f', 'i', 'n', 'i', 't', 'y']);
    law_lower_case(s, "inf"@);
    law_lower_case(s, "nan"@);
    law_lower_case(s, "infinity"@);
    assert(s[0] != '+' && s[0] != '-');
}

/// A real number that is not one of those words has a digit, no characters but digits, points,
/// signs and the letter of an exponent, and at most one point, which stands before the exponent.
pub proof fn law_real_only(s: Seq<char>)
    requires
        is_real(s),
    ensures
        s.len() > 0,
        ({
            let u = if s[0] == '+' || s[0] == '-' {
                s.skip(1)
            } else {
                s
            };
            ||| spells(u, seq!['i', 'n', 'f'])
            ||| spells(u, seq!['n', 'a', 'n'])
            ||| spells(u, seq!['i', 'n', 'f', 'i', 'n', 'i', 't', 'y'])
            ||| is_plain_number(u)
        }),
{
    reveal_strlit("inf");
    reveal_strlit("nan");
    reveal_strlit("infinity");
    assert("inf"@ =~= seq!['i', 'n', 'f']);
    assert("nan"@ =~= seq!['n', 'a', 'n']);
    assert("infinity"@ =~= seq!['i', 'n', 'f', 'i', 'n', 'i', 't', 'y']);
    let u = without_sign(s);
    law_lower_case(u, "inf"@);
    law_lower_case(u, "nan"@);
    law_lower_case(u, "infinity"@);
    assert(is_word(u, "inf"@) <==> ascii_lowercase(u) == "inf"@);
    assert(is_word(u, "nan"@) <==> ascii_lowercase(u) == "nan"@);
    assert(is_word(u, "infinity"@) <==> ascii_lowercase(u) == "infinity"@);
    if s.len() == 0 {
        assert(u =~= Seq::empty());
        assert(ascii_lowercase(u).len() == 0);
        if is_unsigned_number(u) {
            assert(!is_mantissa(u));
        }
        assert(false);
    }
    if is_unsigned_number(u) {
        if is_mantissa(u) {
            lemma_decimal_part(u);
            assert(u.take(u.len() as int) =~= u);
            assert(has_decimal_part(u, u.len() as int));
        } else {
            let e = choose|e: int|
                0 <= e < u.len() && is_e(#[trigger] u[e]) && is_mantissa(u.take(e)) && is_exponent(
                    u.skip(e + 1),
                );
            lemma_decimal_part(u.take(e));
            let tail = u.skip(e + 1);
            let digits = without_sign(tail);
            assert forall|i: int| 0 <= i < digits.len() implies 48 <= (
            #[trigger] digits[i]) as int <= 57 by {
                assert(is_digit(digits[i]));
            }
            assert(has_decimal_part(u, e));
        }
    }
}

/// Whether the first characters are digits with at most one point among them.
pub open spec fn has_decimal_part(u: Seq<char>, end: int) -> bool {
    let m = u.take(end);
    &&& 0 < end <= u.len()
    &&& is_digits(m) || exists|d: int|
        0 <= d < m.len() && m.len() > 1 && #[trigger] m[d] == '.' && is_digits(m.take(d))
            && is_digits(m.skip(d + 1))
}

/// Digits with at most one point among them, possibly with an exponent: the letter `e` in upper or
/// lower case, at most one sign, and digits.
pub open spec fn is_plain_number(u: Seq<char>) -> bool {
    exists|end: int| #[trigger]
        has_decimal_part(u, end) && (end == u.len() || ((u[end] == 'e' || u[end] == 'E') && {
            let tail = u.skip(end + 1);
            let digits = if tail.len() > 0 && (tail[0] == '+' || tail[0] == '-') {
                tail.skip(1)
            } else {
                tail
            };
            digits.len() > 0 && is_digits(digits)
        }))
}

proof fn lemma_decimal_part(m: Seq<char>)
    requires
        is_mantissa(m),
    ensures
        m.len() > 0,
        is_digits(m) || exists|d: int|
            0 <= d < m.len() && m.len() > 1 && #[trigger] m[d] == '.' && is_digits(m.take(d))
                && is_digits(m.skip(d + 1)),
{
    if all_digits(m) {
        assert forall|i: int| 0 <= i < m.len() implies 48 <= (#[trigger] m[i]) as int <= 57 by {
            assert(is_digit(m[i]));
        }
    } else {
        let d = choose|d: int|
            0 <= d < m.len() && #[trigger] m[d] == '.' && all_digits(m.take(d)) && all_digits(
                m.skip(d + 1),
            );
        let a = m.take(d);
        let b = m.skip(d + 1);
        assert forall|i: int| 0 <= i < a.len() implies 48 <= (#[trigger] a[i]) as int <= 57 by {
            assert(is_digit(a[i]));
        }
        assert forall|i: int| 0 <= i < b.len() implies 48 <= (#[trigger] b[i]) as int <= 57 by {
            assert(is_digit(b[i]));
        }
        assert(m[d] == '.');
    }
}

} // verus!

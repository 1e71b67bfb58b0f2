//! What holds of reading a model file.
use vstd::prelude::*;
use vstd::utf8::{decode_utf8, valid_utf8};

use super::attributes::{
    attribute_from, attribute_value, complete, number_value, number_values, position, real_values,
    values, whole_values, Fault, Kind, NumberView,
};
use super::model::{placement_value, transform_value, PlacementView, TransformView};
use super::path::normalized;
use super::xml::{is_name, AttributeView, ElementView};
use crate::laws::numbers::{law_one_word, law_trim, law_trim_finds, law_words_divided};
use crate::numbers::{is_real, whole, words};
use crate::text::is_white_space;

verus! {

// ---------------------------------------------------------------------------
// Names
// ---------------------------------------------------------------------------

/// Whether bytes are the codes of the characters of a name.
pub open spec fn is_written(bytes: Seq<u8>, name: Seq<char>) -> bool {
    &&& bytes.len() == name.len()
    &&& forall|i: int| 0 <= i < name.len() ==> (#[trigger] bytes[i]) as int == name[i] as int
}

/// Bytes are a name if they are the codes of its characters.
pub proof fn law_name(bytes: Seq<u8>, name: Seq<char>)
    ensures
        is_name(bytes, name) <==> is_written(bytes, name),
{
    if is_name(bytes, name) {
        assert forall|i: int| 0 <= i < name.len() implies (#[trigger] bytes[i]) as int
            == name[i] as int by {
            assert(bytes[i] as char == name[i]);
        }
    }
}

// ---------------------------------------------------------------------------
// Attributes
// ---------------------------------------------------------------------------

/// Whether an attribute has a name.
pub open spec fn has_name(a: Option<AttributeView>, name: Seq<char>) -> bool {
    a matches Some(a) && is_written(a.name, name)
}

/// Whether an attribute is the first with its name, and those before it are well-formed.
pub open spec fn is_first(e: ElementView, name: Seq<char>, i: int) -> bool {
    &&& 0 <= i < e.attributes.len()
    &&& has_name(e.attributes[i], name)
    &&& forall|j: int|
        0 <= j < i ==> (#[trigger] e.attributes[j]) is Some && !has_name(e.attributes[j], name)
}

/// Whether an attribute is the last of the first `n` with its name.
pub open spec fn is_last(e: ElementView, name: Seq<char>, i: int, n: int) -> bool {
    &&& 0 <= i < n
    &&& has_name(e.attributes[i], name)
    &&& forall|j: int| i < j < n ==> !has_name(#[trigger] e.attributes[j], name)
}

/// The value of an attribute is that of the first one with the name, whatever follows, as text.
pub proof fn law_attribute(e: ElementView, name: Seq<char>, i: int)
    requires
        is_first(e, name, i),
    ensures
        valid_utf8(e.attributes[i]->0.value) ==> attribute_value(e, name) == Ok::<_, Fault>(
            Some(decode_utf8(e.attributes[i]->0.value)),
        ),
        !valid_utf8(e.attributes[i]->0.value) ==> attribute_value(e, name) == Err::<
            Option<Seq<char>>,
            _,
        >(Fault::Text { value: e.attributes[i]->0.value }),
{
    lemma_attribute_from(e, name, 0, i);
    law_name(e.attributes[i]->0.name, name);
}

proof fn lemma_attribute_from(e: ElementView, name: Seq<char>, from: int, i: int)
    requires
        0 <= from <= i <= e.attributes.len(),
        forall|j: int|
            0 <= j < i ==> (#[trigger] e.attributes[j]) is Some && !has_name(e.attributes[j], name),
    ensures
        attribute_from(e.attributes, name, from) == attribute_from(e.attributes, name, i),
    decreases i - from,
{
    if from < i {
        assert(e.attributes[from] is Some);
        law_name(e.attributes[from]->0.name, name);
        lemma_attribute_from(e, name, from + 1, i);
    }
}

/// An attribute is missing if no attribute has the name and all are well-formed.
pub proof fn law_attribute_missing(e: ElementView, name: Seq<char>)
    requires
        forall|j: int|
            0 <= j < e.attributes.len() ==> (#[trigger] e.attributes[j]) is Some && !has_name(
                e.attributes[j],
                name,
            ),
    ensures
        attribute_value(e, name) == Ok::<_, Fault>(None::<Seq<char>>),
{
    lemma_attribute_from(e, name, 0, e.attributes.len() as int);
}

/// An attribute cannot be looked up behind one that is not well-formed.
pub proof fn law_attribute_malformed(e: ElementView, name: Seq<char>, i: int)
    requires
        0 <= i < e.attributes.len(),
        e.attributes[i] is None,
        forall|j: int|
            0 <= j < i ==> (#[trigger] e.attributes[j]) is Some && !has_name(e.attributes[j], name),
    ensures
        attribute_value(e, name) == Err::<Option<Seq<char>>, _>(Fault::Attribute),
{
    lemma_attribute_from(e, name, 0, i);
}

/// What is found is the text of the first attribute with the name.
pub proof fn law_attribute_found(e: ElementView, name: Seq<char>)
    requires
        attribute_value(e, name) is Ok,
    ensures
        match attribute_value(e, name)->Ok_0 {
            Some(text) => exists|i: int| #[trigger]
                is_first(e, name, i) && valid_utf8(e.attributes[i]->0.value) && text == decode_utf8(
                    e.attributes[i]->0.value,
                ),
            None => forall|j: int|
                0 <= j < e.attributes.len() ==> (#[trigger] e.attributes[j]) is Some && !has_name(
                    e.attributes[j],
                    name,
                ),
        },
{
    lemma_attribute_found(e, name, 0);
}

proof fn lemma_attribute_found(e: ElementView, name: Seq<char>, from: int)
    requires
        0 <= from <= e.attributes.len(),
        attribute_from(e.attributes, name, from) is Ok,
        forall|j: int|
            0 <= j < from ==> (#[trigger] e.attributes[j]) is Some && !has_name(
                e.attributes[j],
                name,
            ),
    ensures
        match attribute_from(e.attributes, name, from)->Ok_0 {
            Some(text) => exists|i: int| #[trigger]
                is_first(e, name, i) && valid_utf8(e.attributes[i]->0.value) && text == decode_utf8(
                    e.attributes[i]->0.value,
                ),
            None => forall|j: int|
                0 <= j < e.attributes.len() ==> (#[trigger] e.attributes[j]) is Some && !has_name(
                    e.attributes[j],
                    name,
                ),
        },
    decreases e.attributes.len() - from,
{
    if from < e.attributes.len() {
        assert(e.attributes[from] is Some);
        law_name(e.attributes[from]->0.name, name);
        if has_name(e.attributes[from], name) {
            assert(is_first(e, name, from));
        } else {
            lemma_attribute_found(e, name, from + 1);
        }
    }
}

// ---------------------------------------------------------------------------
// Numbers
// ---------------------------------------------------------------------------

/// Whether a part of a text has nothing but white space around it, and none at its ends.
pub open spec fn is_core(text: Seq<char>, i: int, j: int) -> bool {
    &&& 0 <= i <= j <= text.len()
    &&& forall|k: int| 0 <= k < i ==> is_white_space(#[trigger] text[k])
    &&& forall|k: int| j <= k < text.len() ==> is_white_space(#[trigger] text[k])
    &&& i < j ==> !is_white_space(text[i]) && !is_white_space(text[j - 1])
}

/// Whether a text is all that a value says, apart from white space around it.
pub open spec fn says(value: Seq<u8>, s: Seq<char>) -> bool {
    &&& valid_utf8(value)
    &&& exists|i: int, j: int| #[trigger]
        is_core(decode_utf8(value), i, j) && s == decode_utf8(value).subrange(i, j)
}

/// The number in a value is the whole text, sign and all, apart from white space around it: a real
/// number keeps it, and a whole number is what it stands for.
pub proof fn law_number(value: Seq<u8>, s: Seq<char>, max: u64)
    requires
        says(value, s),
    ensures
        is_real(s) ==> number_value(Kind::Real, value) == Some(NumberView::Real(s)),
        !is_real(s) ==> number_value(Kind::Real, value) is None,
        whole(s, max) matches Some(n) ==> number_value(Kind::Whole(max), value) == Some(
            NumberView::Whole(n),
        ),
        whole(s, max) is None ==> number_value(Kind::Whole(max), value) is None,
{
    let text = decode_utf8(value);
    let (i, j) = choose|i: int, j: int| #[trigger] is_core(text, i, j) && s == text.subrange(i, j);
    law_trim(text, i, j);
}

/// What is no text is no number.
pub proof fn law_number_text(kind: Kind, value: Seq<u8>)
    ensures
        number_value(kind, value) is Some ==> valid_utf8(value),
        valid_utf8(value) ==> exists|s: Seq<char>| says(value, s),
{
    if valid_utf8(value) {
        let text = decode_utf8(value);
        let (i, j) = law_trim_finds(text);
        assert(is_core(text, i, j));
        assert(says(value, text.subrange(i, j)));
    }
}

/// Whether the last attribute with a name says a text.
pub open spec fn holds(e: ElementView, name: Seq<char>, s: Seq<char>) -> bool {
    exists|i: int| #[trigger]
        is_last(e, name, i, e.attributes.len() as int) && says(e.attributes[i]->0.value, s)
}

/// Whether names are different.
pub open spec fn are_names(names: Seq<Seq<char>>) -> bool {
    names.no_duplicates()
}

proof fn lemma_written_once(bytes: Seq<u8>, a: Seq<char>, b: Seq<char>)
    requires
        is_written(bytes, a),
        is_written(bytes, b),
    ensures
        a == b,
{
    assert forall|i: int| 0 <= i < a.len() implies a[i] == b[i] by {
        assert(bytes[i] as int == a[i] as int);
    }
    assert(a =~= b);
}

proof fn lemma_position(names: Seq<Seq<char>>, name: Seq<u8>, k: int)
    requires
        are_names(names),
    ensures
        position(names, name) matches Some(i) ==> 0 <= i < names.len() && is_written(name, names[i]),
        0 <= k < names.len() && is_written(name, names[k]) ==> position(names, name) == Some(k),
    decreases names.len(),
{
    if names.len() > 0 {
        let rest = names.drop_last();
        assert(rest.no_duplicates()) by {
            assert forall|i: int, j: int|
                0 <= i < rest.len() && 0 <= j < rest.len() && i != j implies rest[i] != rest[j] by {
                assert(rest[i] == names[i] && rest[j] == names[j]);
            }
        }
        law_name(name, names.last());
        lemma_position(rest, name, k);
        if 0 <= k < names.len() && is_written(name, names[k]) {
            if position(rest, name) is Some {
                let i = position(rest, name)->0;
                lemma_written_once(name, names[i], names[k]);
            }
            if k < names.len() - 1 {
                assert(rest[k] == names[k]);
            }
        }
    }
}

/// Whether what the first attributes give to a name is right: the number of the last attribute
/// with the name, if there is one.
spec fn is_given(
    e: ElementView,
    name: Seq<char>,
    kind: Kind,
    n: int,
    v: Option<NumberView>,
) -> bool {
    match v {
        Some(v) => exists|i: int| #[trigger]
            is_last(e, name, i, n) && number_value(kind, e.attributes[i]->0.value) == Some(v),
        None => forall|i: int| 0 <= i < n ==> !has_name(#[trigger] e.attributes[i], name),
    }
}

/// Whether the first attributes are well-formed, and those with one of some names are numbers.
pub open spec fn are_numbers(e: ElementView, names: Seq<Seq<char>>, kind: Kind, n: int) -> bool {
    &&& forall|i: int| 0 <= i < n ==> (#[trigger] e.attributes[i]) is Some
    &&& forall|i: int, k: int|
        #![trigger e.attributes[i], names[k]]
        0 <= i < n && 0 <= k < names.len() && has_name(e.attributes[i], names[k]) ==> number_value(
            kind,
            e.attributes[i]->0.value,
        ) is Some
}

proof fn lemma_values_step(e: ElementView, names: Seq<Seq<char>>, kind: Kind, n: int, k: int)
    requires
        are_names(names),
        0 < n <= e.attributes.len(),
        0 <= k < names.len(),
        values(e, names, kind, n) is Ok,
        values(e, names, kind, n - 1) is Ok,
        values(e, names, kind, n - 1)->Ok_0.len() == names.len(),
        is_given(e, names[k], kind, n - 1, values(e, names, kind, n - 1)->Ok_0[k]),
    ensures
        is_given(e, names[k], kind, n, values(e, names, kind, n)->Ok_0[k]),
{
    let before = values(e, names, kind, n - 1)->Ok_0;
    let after = values(e, names, kind, n)->Ok_0;
    let a = e.attributes[n - 1]->0;
    let name = names[k];
    lemma_position(names, a.name, k);
    if is_written(a.name, name) {
        assert(is_last(e, name, n - 1, n));
    } else {
        assert(after[k] == before[k]);
        if let Some(v) = before[k] {
            let i = choose|i: int| #[trigger]
                is_last(e, name, i, n - 1) && number_value(kind, e.attributes[i]->0.value) == Some(
                    v,
                );
            assert(is_last(e, name, i, n));
        }
    }
}

proof fn lemma_values(e: ElementView, names: Seq<Seq<char>>, kind: Kind, n: int)
    requires
        are_names(names),
        0 <= n <= e.attributes.len(),
    ensures
        values(e, names, kind, n) is Ok <==> are_numbers(e, names, kind, n),
        values(e, names, kind, n) matches Ok(vs) ==> vs.len() == names.len() && forall|k: int|
            0 <= k < names.len() ==> is_given(e, #[trigger] names[k], kind, n, vs[k]),
    decreases n,
{
    if n > 0 {
        lemma_values(e, names, kind, n - 1);
        if let Some(a) = e.attributes[n - 1] {
            lemma_position(names, a.name, 0);
            if let Some(i) = position(names, a.name) {
                assert(has_name(e.attributes[n - 1], names[i]));
            }
            if values(e, names, kind, n) is Ok {
                assert forall|i: int, k: int|
                    #![trigger e.attributes[i], names[k]]
                    0 <= i < n && 0 <= k < names.len() && has_name(
                        e.attributes[i],
                        names[k],
                    ) implies number_value(kind, e.attributes[i]->0.value) is Some by {
                    if i == n - 1 {
                        lemma_position(names, a.name, k);
                    }
                }
                assert forall|k: int| 0 <= k < names.len() implies is_given(
                    e,
                    #[trigger] names[k],
                    kind,
                    n,
                    values(e, names, kind, n)->Ok_0[k],
                ) by {
                    lemma_values_step(e, names, kind, n, k);
                }
            }
            if are_numbers(e, names, kind, n) {
                assert(are_numbers(e, names, kind, n - 1));
            }
        } else {
            assert(!are_numbers(e, names, kind, n));
        }
    } else {
        assert forall|k: int| 0 <= k < names.len() implies is_given(
            e,
            #[trigger] names[k],
            kind,
            n,
            values(e, names, kind, n)->Ok_0[k],
        ) by {
            assert(values(e, names, kind, n)->Ok_0[k] is None);
        }
    }
}

proof fn lemma_complete(
    e: ElementView,
    names: Seq<Seq<char>>,
    vs: Seq<Option<NumberView>>,
    n: int,
)
    requires
        0 <= n <= vs.len(),
    ensures
        complete(e, names, vs, n) is Ok <==> forall|k: int|
            0 <= k < n ==> (#[trigger] vs[k]) is Some,
        complete(e, names, vs, n) matches Ok(all) ==> all.len() == n && forall|k: int|
            0 <= k < n ==> vs[k] == Some(#[trigger] all[k]),
        complete(e, names, vs, n) matches Err(fault) ==> exists|k: int|
            0 <= k < n && #[trigger] vs[k] is None && fault == (Fault::Missing {
                element: e.name,
                attribute: names[k],
            }),
    decreases n,
{
    if n > 0 {
        lemma_complete(e, names, vs, n - 1);
        if complete(e, names, vs, n) is Err && complete(e, names, vs, n - 1) is Ok {
            assert(vs[n - 1] is None);
        }
    }
}

/// The attributes of an element give each name the number of the last attribute with the name.
/// They do so if and only if all of them are well-formed, all with one of the names are numbers,
/// and none of the names is missing.
pub proof fn law_numbers(e: ElementView, names: Seq<Seq<char>>, kind: Kind)
    requires
        are_names(names),
    ensures
        number_values(e, names, kind) matches Ok(vs) ==> vs.len() == names.len() && forall|k: int|
            0 <= k < names.len() ==> gives(e, #[trigger] names[k], kind, vs[k]),
        number_values(e, names, kind) is Ok <==> are_numbers(
            e,
            names,
            kind,
            e.attributes.len() as int,
        ) && forall|k: int|
            0 <= k < names.len() ==> exists|i: int|
                0 <= i < e.attributes.len() && has_name(#[trigger] e.attributes[i], #[trigger] names[k]),
{
    let n = e.attributes.len() as int;
    lemma_values(e, names, kind, n);
    if let Ok(vs) = values(e, names, kind, n) {
        lemma_complete(e, names, vs, names.len() as int);
        assert forall|k: int| 0 <= k < names.len() implies (vs[k] is Some <==> exists|i: int|
            0 <= i < n && has_name(#[trigger] e.attributes[i], #[trigger] names[k])) by {
            assert(is_given(e, names[k], kind, n, vs[k]));
            if vs[k] is Some {
                let i = choose|i: int| #[trigger]
                    is_last(e, names[k], i, n) && number_value(kind, e.attributes[i]->0.value)
                        == Some(vs[k]->0);
                assert(has_name(e.attributes[i], names[k]));
            }
        }
        if let Ok(all) = complete(e, names, vs, names.len() as int) {
            assert forall|k: int| 0 <= k < names.len() implies gives(
                e,
                #[trigger] names[k],
                kind,
                all[k],
            ) by {
                assert(is_given(e, names[k], kind, n, vs[k]));
                assert(vs[k] == Some(all[k]));
                let i = choose|i: int| #[trigger]
                    is_last(e, names[k], i, n) && number_value(kind, e.attributes[i]->0.value)
                        == Some(all[k]);
                let value = e.attributes[i]->0.value;
                law_number_text(kind, value);
                let s = choose|s: Seq<char>| says(value, s);
                match kind {
                    Kind::Whole(max) => {
                        law_number(value, s, max);
                    },
                    Kind::Real => {
                        law_number(value, s, 0);
                    },
                }
                assert(holds(e, names[k], s));
            }
        }
        if number_values(e, names, kind) is Ok {
            assert forall|k: int| 0 <= k < names.len() implies exists|i: int|
                0 <= i < e.attributes.len() && has_name(
                    #[trigger] e.attributes[i],
                    #[trigger] names[k],
                ) by {
                assert(vs[k] is Some);
            }
        } else {
            let k = choose|k: int| 0 <= k < names.len() && #[trigger] vs[k] is None;
            assert(names[k] == names[k]);
        }
    }
}

/// Whether the attributes of an element give a name a number: the text of the last attribute with
/// the name, or what it stands for.
pub open spec fn gives(e: ElementView, name: Seq<char>, kind: Kind, v: NumberView) -> bool {
    exists|s: Seq<char>| #[trigger]
        holds(e, name, s) && match (kind, v) {
            (Kind::Whole(max), NumberView::Whole(n)) => whole(s, max) == Some(n),
            (Kind::Real, NumberView::Real(t)) => is_real(s) && t == s,
            _ => false,
        }
}

/// The first thing that is wrong is what is told of: an attribute that is not well-formed, one
/// that is not the number that it has to be, or else the first name that is missing.
pub proof fn law_numbers_fault(e: ElementView, names: Seq<Seq<char>>, kind: Kind, i: int, k: int)
    requires
        are_names(names),
        0 <= i < e.attributes.len() ==> are_numbers(e, names, kind, i),
    ensures
        0 <= i < e.attributes.len() && e.attributes[i] is None ==> number_values(e, names, kind)
            == Err::<Seq<NumberView>, _>(Fault::Attribute),
        0 <= i < e.attributes.len() && 0 <= k < names.len() && has_name(e.attributes[i], names[k])
            && number_value(kind, e.attributes[i]->0.value) is None ==> number_values(
            e,
            names,
            kind,
        ) == Err::<Seq<NumberView>, _>(
            Fault::Invalid {
                element: e.name,
                attribute: names[k],
                value: e.attributes[i]->0.value,
            },
        ),
        i == e.attributes.len() && are_numbers(e, names, kind, i) && 0 <= k < names.len() && is_absent(
            e,
            names[k],
        ) && (forall|j: int| 0 <= j < k ==> !is_absent(e, #[trigger] names[j])) ==> number_values(
            e,
            names,
            kind,
        ) == Err::<Seq<NumberView>, _>(Fault::Missing { element: e.name, attribute: names[k] }),
{
    let n = e.attributes.len() as int;
    if 0 <= i < n {
        lemma_values(e, names, kind, i);
        if e.attributes[i] is None {
            lemma_fault_stays(e, names, kind, i + 1, n);
        } else if 0 <= k < names.len() && has_name(e.attributes[i], names[k]) {
            lemma_position(names, e.attributes[i]->0.name, k);
            if number_value(kind, e.attributes[i]->0.value) is None {
                lemma_fault_stays(e, names, kind, i + 1, n);
            }
        }
    }
    if i == n && are_numbers(e, names, kind, i) && 0 <= k < names.len() && is_absent(e, names[k])
        && (forall|j: int| 0 <= j < k ==> !is_absent(e, #[trigger] names[j])) {
        lemma_values(e, names, kind, n);
        let vs = values(e, names, kind, n)->Ok_0;
        assert forall|j: int| 0 <= j <= k implies (#[trigger] vs[j] is None <==> is_absent(
            e,
            names[j],
        )) by {
            assert(is_given(e, names[j], kind, n, vs[j]));
            if let Some(v) = vs[j] {
                let at = choose|at: int| #[trigger]
                    is_last(e, names[j], at, n) && number_value(kind, e.attributes[at]->0.value)
                        == Some(v);
                assert(has_name(e.attributes[at], names[j]));
            }
        }
        lemma_missing(e, names, vs, k, names.len() as int);
    }
}

/// Whether no attribute has a name.
pub open spec fn is_absent(e: ElementView, name: Seq<char>) -> bool {
    forall|j: int| 0 <= j < e.attributes.len() ==> !has_name(#[trigger] e.attributes[j], name)
}

proof fn lemma_fault_stays(e: ElementView, names: Seq<Seq<char>>, kind: Kind, n: int, m: int)
    requires
        0 <= n <= m,
        values(e, names, kind, n) is Err,
    ensures
        values(e, names, kind, m) == values(e, names, kind, n),
    decreases m,
{
    if n < m {
        lemma_fault_stays(e, names, kind, n, m - 1);
    }
}

proof fn lemma_missing(
    e: ElementView,
    names: Seq<Seq<char>>,
    vs: Seq<Option<NumberView>>,
    k: int,
    n: int,
)
    requires
        0 <= k < n <= vs.len(),
        vs[k] is None,
        forall|j: int| 0 <= j < k ==> (#[trigger] vs[j]) is Some,
    ensures
        complete(e, names, vs, n) == Err::<Seq<NumberView>, _>(
            Fault::Missing { element: e.name, attribute: names[k] },
        ),
    decreases n,
{
    if k < n - 1 {
        lemma_missing(e, names, vs, k, n - 1);
    } else {
        lemma_complete(e, names, vs, k);
    }
}

// ---------------------------------------------------------------------------
// Placements
// ---------------------------------------------------------------------------

/// Words with a separator behind each.
pub open spec fn separated(ws: Seq<Seq<char>>, separator: char) -> Seq<char>
    decreases ws.len(),
{
    if ws.len() == 0 {
        Seq::empty()
    } else {
        separated(ws.drop_last(), separator) + ws.last().push(separator)
    }
}

proof fn lemma_separated(ws: Seq<Seq<char>>, separator: char)
    requires
        is_white_space(separator),
        forall|k: int, i: int|
            0 <= k < ws.len() && 0 <= i < ws[k].len() ==> !is_white_space(#[trigger] ws[k][i]),
        forall|k: int| 0 <= k < ws.len() ==> (#[trigger] ws[k]).len() > 0,
    ensures
        words(separated(ws, separator)) == ws,
        ws.len() > 0 ==> separated(ws, separator).len() > 0 && separated(ws, separator).last()
            == separator,
    decreases ws.len(),
{
    if ws.len() == 0 {
        assert(words(separated(ws, separator)) =~= ws);
    } else {
        let rest = ws.drop_last();
        let last = ws.last();
        assert forall|k: int, i: int| 0 <= k < rest.len() && 0 <= i < rest[k].len() implies !is_white_space(
            #[trigger] rest[k][i],
        ) by {
            assert(rest[k] == ws[k]);
            assert(!is_white_space(ws[k][i]));
        }
        assert forall|k: int| 0 <= k < rest.len() implies (#[trigger] rest[k]).len() > 0 by {
            assert(rest[k] == ws[k]);
        }
        lemma_separated(rest, separator);
        let before = separated(rest, separator);
        assert forall|i: int| 0 <= i < last.len() implies !is_white_space(#[trigger] last[i]) by {
            assert(!is_white_space(ws[ws.len() - 1][i]));
        }
        assert(ws[ws.len() - 1].len() > 0);
        law_one_word(last);
        let none = Seq::<char>::empty();
        law_one_word(none);
        // The last word stands between white space, or at the start.
        law_words_divided(last, separator, none);
        assert(last.push(separator) + none =~= last.push(separator));
        assert(words(last.push(separator)) =~= seq![last]);
        if rest.len() > 0 {
            let a = before.drop_last();
            law_words_divided(a, separator, none);
            assert(a.push(separator) + none =~= before);
            assert(words(before) =~= words(a));
            law_words_divided(a, separator, last.push(separator));
            assert(a.push(separator) =~= before);
        } else {
            assert(before + last.push(separator) =~= last.push(separator));
        }
        assert(words(separated(ws, separator)) =~= rest + seq![last]);
        assert(rest + seq![last] =~= ws);
    }
}

/// Twelve real numbers with white space between them are a transform, number by number in order.
/// Any other count is none.
pub proof fn law_transform(numbers: Seq<Seq<char>>, separator: char)
    requires
        is_white_space(separator),
        forall|k: int, i: int|
            0 <= k < numbers.len() && 0 <= i < numbers[k].len() ==> !is_white_space(
                #[trigger] numbers[k][i],
            ),
        forall|k: int| 0 <= k < numbers.len() ==> (#[trigger] numbers[k]).len() > 0,
    ensures
        numbers.len() == 12 && (forall|k: int|
            0 <= k < numbers.len() ==> is_real(#[trigger] numbers[k])) ==> transform_value(
            separated(numbers, separator),
        ) == Some(TransformView::Matrix(numbers)),
        numbers.len() != 12 ==> transform_value(separated(numbers, separator)) is None,
        (exists|k: int| 0 <= k < numbers.len() && !is_real(#[trigger] numbers[k]))
            ==> transform_value(separated(numbers, separator)) is None,
{
    lemma_separated(numbers, separator);
}

/// A transform is the words of its text in order, twelve real numbers.
pub proof fn law_transform_words(s: Seq<char>, t: TransformView)
    requires
        transform_value(s) == Some(t),
    ensures
        t matches TransformView::Matrix(m) && m == words(s) && m.len() == 12 && forall|k: int|
            0 <= k < 12 ==> is_real(#[trigger] m[k]),
{
}

/// `path`.
pub open spec fn path_name() -> Seq<char> {
    seq!['p', 'a', 't', 'h']
}

/// `transform`.
pub open spec fn transform_name() -> Seq<char> {
    seq!['t', 'r', 'a', 'n', 's', 'f', 'o', 'r', 'm']
}

/// A placement has the object that its `objectid` says, the path in its first `path`, in the form
/// in which paths are compared, and the transform in its first `transform`. Without those two, it
/// is in the same file and where it is.
pub proof fn law_placement(e: ElementView, p: PlacementView)
    requires
        placement_value(e) == Ok::<_, Fault>(p),
    ensures
        gives(
            e,
            seq!['o', 'b', 'j', 'e', 'c', 't', 'i', 'd'],
            Kind::Whole(u64::MAX),
            NumberView::Whole(p.objectid),
        ),
        match p.path {
            Some(path) => exists|i: int| #[trigger]
                is_first(e, path_name(), i) && path == normalized(
                    decode_utf8(e.attributes[i]->0.value),
                ),
            None => forall|j: int|
                0 <= j < e.attributes.len() ==> !has_name(
                    #[trigger] e.attributes[j],
                    path_name(),
                ),
        },
        match p.transform {
            TransformView::Matrix(m) => exists|i: int| #[trigger]
                is_first(e, transform_name(), i)
                    && transform_value(decode_utf8(e.attributes[i]->0.value)) == Some(
                    TransformView::Matrix(m),
                ),
            TransformView::Identity => forall|j: int|
                0 <= j < e.attributes.len() ==> !has_name(
                    #[trigger] e.attributes[j],
                    transform_name(),
                ),
        },
{
    reveal_strlit("objectid");
    reveal_strlit("path");
    reveal_strlit("transform");
    let id = seq!['o', 'b', 'j', 'e', 'c', 't', 'i', 'd'];
    assert("objectid"@ =~= id);
    assert("path"@ =~= path_name());
    assert("transform"@ =~= transform_name());
    law_attribute_found(e, "path"@);
    law_attribute_found(e, "transform"@);
    lemma_one_name(id);
    lemma_whole(e, seq![id], u64::MAX, 0);
}

/// What is wrong with a placement is told of in this order: its transform, its object, its path.
pub proof fn law_placement_fault(e: ElementView)
    ensures
        attribute_value(e, transform_name()) matches Err(fault) ==> placement_value(e) == Err::<
            PlacementView,
            _,
        >(fault),
        attribute_value(e, transform_name()) matches Ok(Some(text)) ==> (transform_value(
            text,
        ) is None ==> placement_value(e) == Err::<PlacementView, _>(Fault::Transform { text })),
        (attribute_value(e, transform_name()) matches Ok(text) && (text is None || transform_value(
            text->0,
        ) is Some)) ==> {
            match number_values(
                e,
                seq![seq!['o', 'b', 'j', 'e', 'c', 't', 'i', 'd']],
                Kind::Whole(u64::MAX),
            ) {
                Err(fault) => placement_value(e) == Err::<PlacementView, _>(fault),
                Ok(_) => match attribute_value(e, path_name()) {
                    Err(fault) => placement_value(e) == Err::<PlacementView, _>(fault),
                    Ok(_) => placement_value(e) is Ok,
                },
            }
        },
{
    reveal_strlit("objectid");
    reveal_strlit("path");
    reveal_strlit("transform");
    assert("objectid"@ =~= seq!['o', 'b', 'j', 'e', 'c', 't', 'i', 'd']);
    assert("path"@ =~= path_name());
    assert("transform"@ =~= transform_name());
}

proof fn lemma_one_name(name: Seq<char>)
    ensures
        are_names(seq![name]),
{
    assert(seq![name][0] == name);
}

pub(super) proof fn lemma_whole(e: ElementView, names: Seq<Seq<char>>, max: u64, k: int)
    requires
        are_names(names),
        0 <= k < names.len(),
    ensures
        whole_values(e, names, max) matches Ok(ns) ==> ns.len() == names.len() && gives(
            e,
            names[k],
            Kind::Whole(max),
            NumberView::Whole(ns[k]),
        ),
{
    law_numbers(e, names, Kind::Whole(max));
    if let Ok(vs) = number_values(e, names, Kind::Whole(max)) {
        assert(gives(e, names[k], Kind::Whole(max), vs[k]));
        assert(vs[k] is Whole);
    }
}

pub(super) proof fn lemma_real(e: ElementView, names: Seq<Seq<char>>, k: int)
    requires
        are_names(names),
        0 <= k < names.len(),
    ensures
        real_values(e, names) matches Ok(ns) ==> ns.len() == names.len() && gives(
            e,
            names[k],
            Kind::Real,
            NumberView::Real(ns[k]),
        ),
{
    law_numbers(e, names, Kind::Real);
    if let Ok(vs) = number_values(e, names, Kind::Real) {
        assert(gives(e, names[k], Kind::Real, vs[k]));
        assert(vs[k] is Real);
    }
}

} // verus!

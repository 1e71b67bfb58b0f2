//! The attributes of elements in a model file.
use quick_xml::events::attributes::AttrError;
use vstd::prelude::*;
use vstd::utf8::{decode_utf8, valid_utf8};

use crate::numbers::{is_real, parse_whole, trim, trimmed, whole, Real};
use super::xml::{is_name, named, AttributeView, Element, ElementView};
use crate::text;

verus! {

/// Cloning an error in the attributes of an element. Nothing is claimed of the copy.
pub assume_specification[ <AttrError as Clone>::clone ](e: &AttrError) -> (r: AttrError)
;

/// Why a model file cannot be read.
pub enum ModelError {
    /// The file is not well-formed XML, or cannot be read any further.
    Xml(quick_xml::Error),
    /// The attributes of an element are not well-formed.
    Attribute(AttrError),
    /// An attribute is not UTF-8.
    Text { value: Vec<u8> },
    /// An attribute is not the number that it has to be.
    Invalid { element: Vec<u8>, attribute: String, value: Vec<u8> },
    /// An attribute is missing.
    Missing { element: Vec<u8>, attribute: String },
    /// A transform is not made of twelve numbers.
    Transform { text: String },
}

/// What a `ModelError` is about.
pub enum Fault {
    Xml,
    Attribute,
    Text { value: Seq<u8> },
    Invalid { element: Seq<u8>, attribute: Seq<char>, value: Seq<u8> },
    Missing { element: Seq<u8>, attribute: Seq<char> },
    Transform { text: Seq<char> },
}

impl View for ModelError {
    type V = Fault;

    open spec fn view(&self) -> Fault {
        match self {
            ModelError::Xml(_) => Fault::Xml,
            ModelError::Attribute(_) => Fault::Attribute,
            ModelError::Text { value } => Fault::Text { value: value@ },
            ModelError::Invalid { element, attribute, value } => Fault::Invalid {
                element: element@,
                attribute: attribute@,
                value: value@,
            },
            ModelError::Missing { element, attribute } => Fault::Missing {
                element: element@,
                attribute: attribute@,
            },
            ModelError::Transform { text } => Fault::Transform { text: text@ },
        }
    }
}

// ---------------------------------------------------------------------------
// Attributes as text
// ---------------------------------------------------------------------------

/// The value of the first of some attributes that has a name, from an index on.
pub open spec fn attribute_from(
    attributes: Seq<Option<AttributeView>>,
    name: Seq<char>,
    i: int,
) -> Result<Option<Seq<char>>, Fault>
    decreases attributes.len() - i,
{
    if i >= attributes.len() {
        Ok(None)
    } else {
        match attributes[i] {
            None => Err(Fault::Attribute),
            Some(a) => if !is_name(a.name, name) {
                attribute_from(attributes, name, i + 1)
            } else if valid_utf8(a.value) {
                Ok(Some(decode_utf8(a.value)))
            } else {
                Err(Fault::Text { value: a.value })
            },
        }
    }
}

/// The value of an attribute of an element. It is looked up by its name without any namespace
/// prefix.
pub open spec fn attribute_value(e: ElementView, name: Seq<char>) -> Result<Option<Seq<char>>, Fault> {
    attribute_from(e.attributes, name, 0)
}

/// Looks up an attribute by its name without any namespace prefix.
pub fn attribute(e: &Element, name: &str) -> (r: Result<Option<String>, ModelError>)
    ensures
        match r {
            Ok(Some(value)) => attribute_value(e@, name@) == Ok::<_, Fault>(Some(value@)),
            Ok(None) => attribute_value(e@, name@) == Ok::<_, Fault>(None::<Seq<char>>),
            Err(error) => attribute_value(e@, name@) == Err::<Option<Seq<char>>, _>(error@),
        },
{
    for i in 0..e.attributes.len()
        invariant
            attribute_value(e@, name@) == attribute_from(e@.attributes, name@, i as int),
    {
        assert(e@.attributes[i as int] == super::xml::attribute_view(e.attributes@[i as int]));
        match &e.attributes[i] {
            Err(error) => {
                return Err(ModelError::Attribute(error.clone()));
            },
            Ok(a) => if named(a.name.as_slice(), name) {
                match text::utf8(a.value.as_slice()) {
                    Some(value) => {
                        return Ok(Some(text::owned(value)));
                    },
                    None => {
                        return Err(ModelError::Text { value: copied(&a.value) });
                    },
                }
            },
        }
    }
    Ok(None)
}

// ---------------------------------------------------------------------------
// Attributes as numbers
// ---------------------------------------------------------------------------

/// What kind of number an attribute has to be.
#[derive(Clone, Copy, PartialEq, Eq, Structural, Debug)]
pub enum Kind {
    /// A whole number up to a limit.
    Whole(u64),
    /// A real number.
    Real,
}

/// A number in an attribute.
pub enum Number {
    Whole(u64),
    Real(Real),
}

/// The model of a `Number`.
pub enum NumberView {
    Whole(u64),
    Real(Seq<char>),
}

impl View for Number {
    type V = NumberView;

    open spec fn view(&self) -> NumberView {
        match self {
            Number::Whole(n) => NumberView::Whole(*n),
            Number::Real(n) => NumberView::Real(n@),
        }
    }
}

/// The number that the value of an attribute stands for, with white space around it.
pub open spec fn number_value(kind: Kind, value: Seq<u8>) -> Option<NumberView> {
    if valid_utf8(value) {
        let s = trim(decode_utf8(value));
        match kind {
            Kind::Whole(max) => match whole(s, max) {
                Some(n) => Some(NumberView::Whole(n)),
                None => None,
            },
            Kind::Real => if is_real(s) {
                Some(NumberView::Real(s))
            } else {
                None
            },
        }
    } else {
        None
    }
}

/// The number that the value of an attribute stands for.
fn number(kind: Kind, value: &[u8]) -> (r: Option<Number>)
    ensures
        match r {
            Some(n) => number_value(kind, value@) == Some(n@),
            None => number_value(kind, value@) is None,
        },
{
    let s = match text::utf8(value) {
        Some(s) => s,
        None => return None,
    };
    let cs = text::chars(s);
    let t = trimmed(cs.as_slice());
    match kind {
        Kind::Whole(max) => match parse_whole(t, max) {
            Some(n) => Some(Number::Whole(n)),
            None => None,
        },
        Kind::Real => match Real::from_chars(t) {
            Some(n) => Some(Number::Real(n)),
            None => None,
        },
    }
}

/// The first of some names that bytes are.
pub open spec fn position(names: Seq<Seq<char>>, name: Seq<u8>) -> Option<int>
    decreases names.len(),
{
    if names.len() == 0 {
        None
    } else if position(names.drop_last(), name) is Some {
        position(names.drop_last(), name)
    } else if is_name(name, names.last()) {
        Some(names.len() - 1)
    } else {
        None
    }
}

/// The values that the first attributes of an element give to names. A later attribute
/// overrides an earlier one.
pub open spec fn values(e: ElementView, names: Seq<Seq<char>>, kind: Kind, n: int) -> Result<
    Seq<Option<NumberView>>,
    Fault,
>
    decreases n,
{
    if n <= 0 {
        Ok(names.map_values(|name: Seq<char>| None))
    } else {
        match values(e, names, kind, n - 1) {
            Err(fault) => Err(fault),
            Ok(before) => match e.attributes[n - 1] {
                None => Err(Fault::Attribute),
                Some(a) => match position(names, a.name) {
                    None => Ok(before),
                    Some(i) => match number_value(kind, a.value) {
                        Some(v) => Ok(before.update(i, Some(v))),
                        None => Err(
                            Fault::Invalid {
                                element: e.name,
                                attribute: names[i],
                                value: a.value,
                            },
                        ),
                    },
                },
            },
        }
    }
}

/// The values, when there is one for every name. The first name without one is at fault.
pub open spec fn complete(
    e: ElementView,
    names: Seq<Seq<char>>,
    values: Seq<Option<NumberView>>,
    n: int,
) -> Result<Seq<NumberView>, Fault>
    decreases n,
{
    if n <= 0 {
        Ok(Seq::empty())
    } else {
        match complete(e, names, values, n - 1) {
            Err(fault) => Err(fault),
            Ok(before) => match values[n - 1] {
                Some(v) => Ok(before.push(v)),
                None => Err(Fault::Missing { element: e.name, attribute: names[n - 1] }),
            },
        }
    }
}

/// The numbers that the attributes of an element give to names.
pub open spec fn number_values(e: ElementView, names: Seq<Seq<char>>, kind: Kind) -> Result<
    Seq<NumberView>,
    Fault,
> {
    match values(e, names, kind, e.attributes.len() as int) {
        Err(fault) => Err(fault),
        Ok(values) => complete(e, names, values, names.len() as int),
    }
}

/// The models of several names.
pub open spec fn names_view(names: Seq<&str>) -> Seq<Seq<char>> {
    names.map_values(|name: &str| name@)
}

/// The models of several numbers.
pub open spec fn numbers_view(numbers: Seq<Number>) -> Seq<NumberView> {
    numbers.map_values(|n: Number| n@)
}

/// The models of numbers that may be missing.
pub open spec fn options_view(values: Seq<Option<Number>>) -> Seq<Option<NumberView>> {
    values.map_values(
        |v: Option<Number>|
            match v {
                Some(n) => Some(n@),
                None => None,
            },
    )
}

/// The first of some names that bytes are.
fn find(names: &[&str], name: &[u8]) -> (r: Option<usize>)
    ensures
        match r {
            Some(i) => i < names@.len() && position(names_view(names@), name@) == Some(i as int),
            None => position(names_view(names@), name@) is None,
        },
{
    let ghost all = names_view(names@);
    for i in 0..names.len()
        invariant
            all == names_view(names@),
            position(all.take(i as int), name@) is None,
    {
        assert(all.take(i + 1).drop_last() =~= all.take(i as int));
        assert(all[i as int] == names@[i as int]@);
        if named(name, names[i]) {
            assert(position(all.take(i + 1), name@) == Some(i as int));
            proof {
                lemma_position_extend(all, name@, i + 1);
            }
            return Some(i);
        }
    }
    assert(all.take(all.len() as int) =~= all);
    None
}

proof fn lemma_position_extend(names: Seq<Seq<char>>, name: Seq<u8>, n: int)
    requires
        0 <= n <= names.len(),
        position(names.take(n), name) is Some,
    ensures
        position(names, name) == position(names.take(n), name),
    decreases names.len() - n,
{
    if n < names.len() {
        assert(names.take(n + 1).drop_last() =~= names.take(n));
        lemma_position_extend(names, name, n + 1);
    } else {
        assert(names.take(n) =~= names);
    }
}

/// Copies bytes.
fn copied(bytes: &Vec<u8>) -> (r: Vec<u8>)
    ensures
        r@ == bytes@,
{
    let mut r: Vec<u8> = Vec::new();
    for i in 0..bytes.len()
        invariant
            r@ == bytes@.take(i as int),
    {
        r.push(bytes[i]);
        assert(bytes@.take(i + 1) =~= bytes@.take(i as int).push(bytes@[i as int]));
    }
    assert(bytes@.take(bytes@.len() as int) =~= bytes@);
    r
}

/// Parses the named numeric attributes of an element in a single pass over its attributes.
pub fn numbers(e: &Element, names: &[&str], kind: Kind) -> (r: Result<Vec<Number>, ModelError>)
    ensures
        match r {
            Ok(numbers) => number_values(e@, names_view(names@), kind) == Ok::<_, Fault>(
                numbers_view(numbers@),
            ) && numbers@.len() == names@.len(),
            Err(error) => number_values(e@, names_view(names@), kind) == Err::<Seq<NumberView>, _>(
                error@,
            ),
        },
{
    let ghost all = names_view(names@);
    let mut found: Vec<Option<Number>> = Vec::new();
    for i in 0..names.len()
        invariant
            found@.len() == i,
            forall|j: int| 0 <= j < i ==> found@[j] is None,
    {
        found.push(None);
    }
    assert(options_view(found@) =~= all.map_values(|name: Seq<char>| None::<NumberView>));
    for i in 0..e.attributes.len()
        invariant
            all == names_view(names@),
            found@.len() == all.len(),
            values(e@, all, kind, i as int) == Ok::<_, Fault>(options_view(found@)),
    {
        assert(e@.attributes[i as int] == super::xml::attribute_view(e.attributes@[i as int]));
        let ghost before = options_view(found@);
        match &e.attributes[i] {
            Err(error) => {
                proof {
                    lemma_values_fault(e@, all, kind, i + 1, e@.attributes.len() as int);
                }
                return Err(ModelError::Attribute(error.clone()));
            },
            Ok(a) => if let Some(k) = find(names, a.name.as_slice()) {
                assert(all[k as int] == names@[k as int]@);
                match number(kind, a.value.as_slice()) {
                    Some(n) => {
                        let ghost v = n@;
                        found.set(k, Some(n));
                        assert(options_view(found@) =~= before.update(k as int, Some(v)));
                    },
                    None => {
                        proof {
                            lemma_values_fault(e@, all, kind, i + 1, e@.attributes.len() as int);
                        }
                        return Err(
                            ModelError::Invalid {
                                element: copied(&e.name),
                                attribute: text::owned(names[k]),
                                value: copied(&a.value),
                            },
                        );
                    },
                }
            },
        }
    }
    let ghost given = options_view(found@);
    let mut r: Vec<Number> = Vec::new();
    assert(numbers_view(r@) =~= Seq::empty());
    let count = found.len();
    let mut i: usize = 0;
    while i < count
        invariant
            i <= count,
            count == names@.len(),
            found@.len() == count,
            all == names_view(names@),
            given.len() == count,
            values(e@, all, kind, e@.attributes.len() as int) == Ok::<_, Fault>(given),
            forall|j: int| i <= j < count ==> #[trigger] options_view(found@)[j] == given[j],
            complete(e@, all, given, i as int) == Ok::<_, Fault>(numbers_view(r@)),
            r@.len() == i,
        decreases count - i,
    {
        let ghost before = numbers_view(r@);
        assert(options_view(found@)[i as int] == given[i as int]);
        let mut value: Option<Number> = None;
        let ghost older = found@;
        std::mem::swap(&mut value, &mut found[i]);
        assert forall|j: int| i + 1 <= j < count implies #[trigger] options_view(found@)[j]
            == given[j] by {
            assert(options_view(older)[j] == given[j]);
        }
        match value {
            Some(n) => {
                let ghost v = n@;
                r.push(n);
                assert(numbers_view(r@) =~= before.push(v));
            },
            None => {
                assert(all[i as int] == names@[i as int]@);
                proof {
                    lemma_complete_fault(e@, all, given, i + 1, count as int);
                }
                return Err(
                    ModelError::Missing {
                        element: copied(&e.name),
                        attribute: text::owned(names[i]),
                    },
                );
            },
        }
        i += 1;
    }
    Ok(r)
}

proof fn lemma_values_fault(e: ElementView, names: Seq<Seq<char>>, kind: Kind, n: int, m: int)
    requires
        0 <= n <= m,
        values(e, names, kind, n) is Err,
    ensures
        values(e, names, kind, m) == values(e, names, kind, n),
    decreases m,
{
    if n < m {
        lemma_values_fault(e, names, kind, n, m - 1);
    }
}

proof fn lemma_complete_fault(
    e: ElementView,
    names: Seq<Seq<char>>,
    values: Seq<Option<NumberView>>,
    n: int,
    m: int,
)
    requires
        0 <= n <= m,
        complete(e, names, values, n) is Err,
    ensures
        complete(e, names, values, m) == complete(e, names, values, n),
    decreases m,
{
    if n < m {
        lemma_complete_fault(e, names, values, n, m - 1);
    }
}

/// Whether a number is of a kind.
spec fn is_of(kind: Kind, v: NumberView) -> bool {
    match kind {
        Kind::Whole(_) => v is Whole,
        Kind::Real => v is Real,
    }
}

proof fn lemma_values_kind(e: ElementView, names: Seq<Seq<char>>, kind: Kind, n: int)
    ensures
        values(e, names, kind, n) matches Ok(vs) ==> vs.len() == names.len() && forall|i: int|
            0 <= i < vs.len() && vs[i] is Some ==> is_of(kind, #[trigger] vs[i]->0),
    decreases n,
{
    if n > 0 {
        lemma_values_kind(e, names, kind, n - 1);
        if let Some(a) = e.attributes[n - 1] {
            lemma_position_bound(names, a.name);
        }
        if let (Ok(before), Ok(vs)) = (values(e, names, kind, n - 1), values(e, names, kind, n)) {
            assert forall|i: int| 0 <= i < vs.len() && vs[i] is Some implies is_of(
                kind,
                #[trigger] vs[i]->0,
            ) by {
                if before[i] is Some {
                    assert(is_of(kind, before[i]->0));
                }
            }
        }
    }
}

proof fn lemma_position_bound(names: Seq<Seq<char>>, name: Seq<u8>)
    ensures
        position(names, name) matches Some(i) ==> 0 <= i < names.len(),
    decreases names.len(),
{
    if names.len() > 0 {
        lemma_position_bound(names.drop_last(), name);
    }
}

proof fn lemma_complete_kind(
    e: ElementView,
    names: Seq<Seq<char>>,
    kind: Kind,
    vs: Seq<Option<NumberView>>,
    n: int,
)
    requires
        n <= vs.len(),
        forall|i: int| 0 <= i < vs.len() && vs[i] is Some ==> is_of(kind, #[trigger] vs[i]->0),
    ensures
        complete(e, names, vs, n) matches Ok(all) ==> all.len() == (if n > 0 {
            n
        } else {
            0
        }) && forall|i: int| 0 <= i < all.len() ==> is_of(kind, #[trigger] all[i]),
    decreases n,
{
    if n > 0 {
        lemma_complete_kind(e, names, kind, vs, n - 1);
    }
}

proof fn lemma_number_values_kind(e: ElementView, names: Seq<Seq<char>>, kind: Kind)
    ensures
        number_values(e, names, kind) matches Ok(all) ==> all.len() == names.len() && forall|i: int|
            0 <= i < all.len() ==> is_of(kind, #[trigger] all[i]),
{
    lemma_values_kind(e, names, kind, e.attributes.len() as int);
    if let Ok(vs) = values(e, names, kind, e.attributes.len() as int) {
        lemma_complete_kind(e, names, kind, vs, names.len() as int);
    }
}

/// The whole numbers up to a limit that the attributes of an element give to names.
pub open spec fn whole_values(e: ElementView, names: Seq<Seq<char>>, max: u64) -> Result<
    Seq<u64>,
    Fault,
> {
    match number_values(e, names, Kind::Whole(max)) {
        Ok(vs) => Ok(vs.map_values(|v: NumberView| v->Whole_0)),
        Err(fault) => Err(fault),
    }
}

/// The real numbers that the attributes of an element give to names.
pub open spec fn real_values(e: ElementView, names: Seq<Seq<char>>) -> Result<
    Seq<Seq<char>>,
    Fault,
> {
    match number_values(e, names, Kind::Real) {
        Ok(vs) => Ok(vs.map_values(|v: NumberView| v->Real_0)),
        Err(fault) => Err(fault),
    }
}

/// Parses attributes that are whole numbers up to a limit.
pub fn whole_numbers(e: &Element, names: &[&str], max: u64) -> (r: Result<Vec<u64>, ModelError>)
    ensures
        match r {
            Ok(ns) => whole_values(e@, names_view(names@), max) == Ok::<_, Fault>(ns@) && ns@.len()
                == names@.len(),
            Err(error) => whole_values(e@, names_view(names@), max) == Err::<Seq<u64>, _>(error@),
        },
{
    let ns = match numbers(e, names, Kind::Whole(max)) {
        Ok(ns) => ns,
        Err(error) => return Err(error),
    };
    let ghost all = numbers_view(ns@);
    proof {
        lemma_number_values_kind(e@, names_view(names@), Kind::Whole(max));
    }
    let mut r: Vec<u64> = Vec::new();
    for i in 0..ns.len()
        invariant
            all == numbers_view(ns@),
            forall|i: int| 0 <= i < all.len() ==> is_of(Kind::Whole(max), #[trigger] all[i]),
            r@.len() == i,
            forall|j: int| 0 <= j < i ==> r@[j] == #[trigger] all[j]->Whole_0,
    {
        assert(all[i as int] == ns@[i as int]@);
        match &ns[i] {
            Number::Whole(n) => r.push(*n),
            Number::Real(_) => {
                assert(is_of(Kind::Whole(max), all[i as int]));
                assert(false);
            },
        }
    }
    assert(r@ =~= all.map_values(|v: NumberView| v->Whole_0));
    Ok(r)
}

/// The models of several real numbers.
pub open spec fn reals_view(reals: Seq<Real>) -> Seq<Seq<char>> {
    reals.map_values(|n: Real| n@)
}

/// Parses attributes that are real numbers.
pub fn real_numbers(e: &Element, names: &[&str]) -> (r: Result<Vec<Real>, ModelError>)
    ensures
        match r {
            Ok(ns) => real_values(e@, names_view(names@)) == Ok::<_, Fault>(reals_view(ns@))
                && ns@.len() == names@.len(),
            Err(error) => real_values(e@, names_view(names@)) == Err::<Seq<Seq<char>>, _>(error@),
        },
{
    let mut ns = match numbers(e, names, Kind::Real) {
        Ok(ns) => ns,
        Err(error) => return Err(error),
    };
    let ghost all = numbers_view(ns@);
    proof {
        lemma_number_values_kind(e@, names_view(names@), Kind::Real);
    }
    let mut backwards: Vec<Real> = Vec::new();
    while ns.len() > 0
        invariant
            ns@.len() <= all.len(),
            numbers_view(ns@) == all.take(ns@.len() as int),
            forall|i: int| 0 <= i < all.len() ==> is_of(Kind::Real, #[trigger] all[i]),
            backwards@.len() == all.len() - ns@.len(),
            forall|j: int|
                0 <= j < backwards@.len() ==> #[trigger] backwards@[j]@ == all[all.len() - 1
                    - j]->Real_0,
        decreases ns@.len(),
    {
        let ghost n = ns@.len() as int;
        let ghost before = numbers_view(ns@);
        let number = ns.pop().unwrap();
        assert(number@ == before[n - 1]);
        assert(before[n - 1] == all[n - 1]);
        assert(numbers_view(ns@) =~= all.take(n - 1));
        match number {
            Number::Real(v) => backwards.push(v),
            Number::Whole(_) => {
                assert(is_of(Kind::Real, all[n - 1]));
                assert(false);
            },
        }
    }
    let mut r: Vec<Real> = Vec::new();
    while backwards.len() > 0
        invariant
            r@.len() + backwards@.len() == all.len(),
            forall|j: int|
                0 <= j < backwards@.len() ==> #[trigger] backwards@[j]@ == all[all.len() - 1
                    - j]->Real_0,
            forall|j: int| 0 <= j < r@.len() ==> #[trigger] r@[j]@ == all[j]->Real_0,
        decreases backwards@.len(),
    {
        let v = backwards.pop().unwrap();
        r.push(v);
    }
    assert(reals_view(r@) =~= all.map_values(|v: NumberView| v->Real_0));
    Ok(r)
}

} // verus!

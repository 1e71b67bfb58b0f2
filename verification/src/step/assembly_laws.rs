//! What holds of the entities of a data section.
use vstd::prelude::*;

use super::assembly::{
    coordinates, coordinates_at, definition_rep, distinct_ids, entity, follow, is_false,
    is_last_definition, last_definitions, mapped_item, number, parents, parents_by, placed_at,
    placement, record, records_of, represents, shell_ref, transformation, usage_parent, Coordinates,
    Number, Placement, ShellRef, Transform,
};
use super::entity::{first_record, refs, ArgumentView, EntityView, Item, RecordView};

verus! {

// ---------------------------------------------------------------------------
// Records
// ---------------------------------------------------------------------------

/// Whether an argument of a record is a reference to an entity.
pub open spec fn refers(r: RecordView, index: int, id: u64) -> bool {
    0 <= index < r.arguments.len() && r.arguments[index] == ArgumentView::Ref(id)
}

/// Whether an argument of a record is no reference.
pub open spec fn refers_to_none(r: RecordView, index: int) -> bool {
    0 <= index < r.arguments.len() ==> !(r.arguments[index] is Ref)
}

/// An argument refers to an entity if it is a reference to it.
pub proof fn law_reference(r: RecordView, index: int, id: u64)
    ensures
        r.reference(index) == Some(id) <==> refers(r, index, id),
        r.reference(index) is None <==> refers_to_none(r, index),
{
}

/// The entities that a list refers to are those of its first part and then those of its second.
pub proof fn law_refs(a: Seq<Item>, b: Seq<Item>, item: Item)
    ensures
        refs(a + b) == refs(a) + refs(b),
        refs(seq![item]) == match item {
            Item::Ref(id) => seq![id],
            _ => Seq::<u64>::empty(),
        },
        refs(Seq::<Item>::empty()) == Seq::<u64>::empty(),
    decreases b.len(),
{
    reveal_with_fuel(refs, 2);
    assert(seq![item].drop_last() =~= Seq::empty());
    if let Item::Ref(id) = item {
        assert(refs(seq![item]) =~= seq![id]);
    }
    if b.len() == 0 {
        assert(a + b =~= a);
        assert(refs(a) + refs(b) =~= refs(a));
    } else {
        law_refs(a, b.drop_last(), item);
        assert((a + b).drop_last() =~= a + b.drop_last());
        assert((a + b).last() == b.last());
        assert(refs(a + b) =~= refs(a) + refs(b));
    }
}

/// A record refers to what the list in an argument refers to, and to nothing where there is no
/// list.
pub proof fn law_references(r: RecordView, index: int, items: Seq<Item>)
    ensures
        0 <= index < r.arguments.len() && r.arguments[index] == ArgumentView::List(items)
            ==> r.references(index) == refs(items),
        !(0 <= index < r.arguments.len() && r.arguments[index] is List) ==> r.references(
            index,
        ).len() == 0,
{
}

/// Whether a record is the first of several that meets a condition.
pub open spec fn is_first_record(
    records: Seq<RecordView>,
    wanted: spec_fn(RecordView) -> bool,
    k: int,
) -> bool {
    &&& 0 <= k < records.len()
    &&& wanted(records[k])
    &&& forall|j: int| 0 <= j < k ==> !wanted(#[trigger] records[j])
}

/// The first record that meets a condition is found, if there is one.
pub proof fn law_first_record(
    records: Seq<RecordView>,
    wanted: spec_fn(RecordView) -> bool,
    k: int,
)
    ensures
        is_first_record(records, wanted, k) ==> first_record(records, wanted) == Some(records[k]),
        (forall|j: int| 0 <= j < records.len() ==> !wanted(#[trigger] records[j])) ==> first_record(
            records,
            wanted,
        ) is None,
    decreases records.len(),
{
    if records.len() > 0 {
        let rest = records.drop_last();
        law_first_record(rest, wanted, k);
        if is_first_record(records, wanted, k) && k < rest.len() {
            assert forall|j: int| 0 <= j < k implies !wanted(#[trigger] rest[j]) by {
                assert(rest[j] == records[j]);
            }
            assert(is_first_record(rest, wanted, k));
        }
        if is_first_record(records, wanted, k) && k == rest.len() {
            assert forall|j: int| 0 <= j < rest.len() implies !wanted(#[trigger] rest[j]) by {
                assert(rest[j] == records[j]);
            }
        }
        if forall|j: int| 0 <= j < records.len() ==> !wanted(#[trigger] records[j]) {
            assert forall|j: int| 0 <= j < rest.len() implies !wanted(#[trigger] rest[j]) by {
                assert(rest[j] == records[j]);
            }
            assert(!wanted(records[records.len() - 1]));
        }
    }
}

// ---------------------------------------------------------------------------
// Entities
// ---------------------------------------------------------------------------

/// An entity has its id, and the records that it is made of, in order.
pub proof fn law_entity_parts(e: EntityView)
    ensures
        match e {
            EntityView::Simple { id, record } => e.id() == id && e.records() == seq![record],
            EntityView::Complex { id, records } => e.id() == id && e.records() == records,
        },
{
}

/// Whether there is an entity with an id and one record.
pub open spec fn has_record(es: Seq<EntityView>, id: u64, r: RecordView) -> bool {
    es.contains(EntityView::Simple { id, record: r })
}

/// An entity is found by its id, and its record if it has but one.
pub proof fn law_entity(es: Seq<EntityView>, id: u64, e: EntityView, r: RecordView)
    requires
        distinct_ids(es),
    ensures
        entity(es, id) == Some(e) <==> es.contains(e) && match e {
            EntityView::Simple { id: own, .. } => own == id,
            EntityView::Complex { id: own, .. } => own == id,
        },
        record(es, id) == Some(r) <==> has_record(es, id, r),
{
    lemma_entity(es, id, e);
    lemma_entity(es, id, EntityView::Simple { id, record: r });
}

proof fn lemma_entity(es: Seq<EntityView>, id: u64, e: EntityView)
    requires
        distinct_ids(es),
    ensures
        entity(es, id) == Some(e) <==> es.contains(e) && e.id() == id,
{
    if es.contains(e) && e.id() == id {
        let i = choose|i: int| 0 <= i < es.len() && es[i] == e;
        assert(es[i].id() == id);
        let j = choose|j: int| 0 <= j < es.len() && #[trigger] es[j].id() == id;
        assert(es[i].id() == es[j].id());
    }
}

/// Whether entities are some of others, in the same order.
pub open spec fn are_at(ds: Seq<EntityView>, es: Seq<EntityView>, at: Seq<int>) -> bool {
    &&& at.len() == ds.len()
    &&& forall|k: int|
        0 <= k < at.len() ==> 0 <= #[trigger] at[k] < es.len() && ds[k] == es[at[k]]
    &&& forall|k: int, l: int| 0 <= k < l < at.len() ==> #[trigger] at[k] < #[trigger] at[l]
}

/// Whether no later entity has the same id.
pub open spec fn stays(es: Seq<EntityView>, i: int) -> bool {
    0 <= i < es.len() && forall|j: int| i < j < es.len() ==> (#[trigger] es[j]).id() != es[i].id()
}

/// Of the entities with the same id, the last one counts, and those that count keep their order.
pub proof fn law_last_definitions(es: Seq<EntityView>, n: int) -> (at: Seq<int>)
    requires
        0 <= n <= es.len(),
    ensures
        are_at(last_definitions(es, n), es, at),
        forall|k: int| 0 <= k < at.len() ==> stays(es, #[trigger] at[k]) && at[k] < n,
        forall|i: int| 0 <= i < n && #[trigger] stays(es, i) ==> at.contains(i),
    decreases n,
{
    if n == 0 {
        Seq::empty()
    } else {
        let before = law_last_definitions(es, n - 1);
        assert(is_last_definition(es, n - 1) <==> stays(es, n - 1));
        if stays(es, n - 1) {
            let at = before.push(n - 1);
            assert forall|i: int| 0 <= i < n && #[trigger] stays(es, i) implies at.contains(i) by {
                if i < n - 1 {
                    let k = choose|k: int| 0 <= k < before.len() && before[k] == i;
                    assert(at[k] == i);
                } else {
                    assert(at[before.len() as int] == i);
                }
            }
            at
        } else {
            before
        }
    }
}

// ---------------------------------------------------------------------------
// Placements
// ---------------------------------------------------------------------------

/// Whether a coordinate is the number at a place of a list, or zero behind its end.
pub open spec fn is_number(items: Seq<Item>, index: int, n: Number) -> bool {
    if index < items.len() {
        match n {
            Number::Real(bits) => items[index] == Item::Real(bits),
            Number::Integer(value) => items[index] == Item::Integer(value),
        }
    } else {
        n == Number::Real(0)
    }
}

/// The coordinates of a point are the first three numbers of its list, in order.
pub proof fn law_coordinates(es: Seq<EntityView>, id: u64, r: RecordView, c: Coordinates)
    requires
        distinct_ids(es),
        has_record(es, id, r),
    ensures
        coordinates(es, id) == Some(c) <==> r.arguments.len() > 1 && (r.arguments[1] matches ArgumentView::List(
            items,
        ) && is_number(items, 0, c.x) && is_number(items, 1, c.y) && is_number(items, 2, c.z)),
{
    law_entity(es, id, EntityView::Simple { id, record: r }, r);
}

/// Whether an argument leads to a point, or to none.
pub open spec fn leads_to_point(
    es: Seq<EntityView>,
    r: RecordView,
    index: int,
    c: Option<Coordinates>,
) -> bool {
    match c {
        Some(c) => exists|id: u64| #[trigger] refers(r, index, id) && coordinates(es, id) == Some(c),
        None => forall|id: u64| #[trigger]
            refers(r, index, id) ==> coordinates(es, id) is None,
    }
}

proof fn lemma_point(es: Seq<EntityView>, r: RecordView, index: int, c: Option<Coordinates>)
    ensures
        coordinates_at(es, r.reference(index)) == c <==> leads_to_point(es, r, index, c),
{
    if let Some(id) = r.reference(index) {
        assert(refers(r, index, id));
    }
}

/// A placement is an `AXIS2_PLACEMENT_3D`. Its second argument leads to its location, its third
/// to its axis and its fourth to its direction, of which the last two may be missing.
pub proof fn law_placement(es: Seq<EntityView>, id: u64, r: RecordView, p: Placement)
    requires
        distinct_ids(es),
        has_record(es, id, r),
    ensures
        placement(es, id) == Some(p) <==> r.name == "AXIS2_PLACEMENT_3D"@ && leads_to_point(
            es,
            r,
            1,
            Some(p.location),
        ) && leads_to_point(es, r, 2, p.axis) && leads_to_point(es, r, 3, p.ref_direction),
{
    law_entity(es, id, EntityView::Simple { id, record: r }, r);
    lemma_point(es, r, 1, Some(p.location));
    lemma_point(es, r, 2, p.axis);
    lemma_point(es, r, 3, p.ref_direction);
}

/// Whether an argument leads to a placement.
pub open spec fn leads_to_placement(
    es: Seq<EntityView>,
    r: RecordView,
    index: int,
    id: u64,
) -> bool {
    refers(r, index, id) && placement(es, id) is Some
}

/// The transformation between two items goes from the placement of the child's to that of the
/// parent's. The third argument leads to the item of the first representation and the fourth to
/// that of the second. Without both placements, nothing is moved.
pub proof fn law_transformation(
    es: Seq<EntityView>,
    id: u64,
    r: RecordView,
    first: u64,
    second: u64,
)
    requires
        distinct_ids(es),
        has_record(es, id, r),
    ensures
        r.name == "ITEM_DEFINED_TRANSFORMATION"@ && leads_to_placement(es, r, 2, first)
            && leads_to_placement(es, r, 3, second) ==> transformation(es, id, true)
            == (Transform::Between { parent: first, child: second }) && transformation(
            es,
            id,
            false,
        ) == (Transform::Between { parent: second, child: first }),
        r.name != "ITEM_DEFINED_TRANSFORMATION"@ || (forall|id: u64|
            !#[trigger] leads_to_placement(es, r, 2, id)) || (forall|id: u64|
            !#[trigger] leads_to_placement(es, r, 3, id)) ==> transformation(es, id, true)
            == Transform::Identity && transformation(es, id, false) == Transform::Identity,
{
    law_entity(es, id, EntityView::Simple { id, record: r }, r);
    if let Some(x) = placed_at(es, r.reference(2)) {
        assert(leads_to_placement(es, r, 2, x));
    }
    if let Some(x) = placed_at(es, r.reference(3)) {
        assert(leads_to_placement(es, r, 3, x));
    }
}

/// A mapped item places the representation that the second argument of its map leads to. Its own
/// third argument leads to the target, and the first argument of its map to the origin. An origin
/// without an inverse makes it no item at all. Without an origin it is at the target, and without
/// a target it is not moved.
pub proof fn law_mapped_item(
    es: Seq<EntityView>,
    singular: Set<u64>,
    r: RecordView,
    map: u64,
    m: RecordView,
    child: u64,
    target: u64,
    origin: u64,
)
    requires
        distinct_ids(es),
        refers(r, 1, map),
        has_record(es, map, m),
    ensures
        refers_to_none(m, 1) ==> mapped_item(es, singular, r) is None,
        refers(m, 1, child) ==> {
            &&& leads_to_placement(es, r, 2, target) && leads_to_placement(es, m, 0, origin)
                && singular.contains(origin) ==> mapped_item(es, singular, r) is None
            &&& leads_to_placement(es, r, 2, target) && leads_to_placement(es, m, 0, origin)
                && !singular.contains(origin) ==> mapped_item(es, singular, r) == Some(
                (child, Transform::Onto { target, origin }),
            )
            &&& leads_to_placement(es, r, 2, target) && (forall|id: u64|
                !#[trigger] leads_to_placement(es, m, 0, id)) ==> mapped_item(es, singular, r)
                == Some((child, Transform::At { target }))
            &&& (forall|id: u64| !#[trigger] leads_to_placement(es, r, 2, id)) ==> mapped_item(
                es,
                singular,
                r,
            ) == Some((child, Transform::Identity))
        },
{
    law_entity(es, map, EntityView::Simple { id: map, record: m }, m);
    if let Some(x) = placed_at(es, r.reference(2)) {
        assert(leads_to_placement(es, r, 2, x));
    }
    if let Some(x) = placed_at(es, m.reference(0)) {
        assert(leads_to_placement(es, m, 0, x));
    }
}

/// Without a map there is no mapped item.
pub proof fn law_mapped_item_missing(es: Seq<EntityView>, singular: Set<u64>, r: RecordView)
    requires
        refers_to_none(r, 1) || forall|id: u64, m: RecordView|
            refers(r, 1, id) ==> !#[trigger] has_record(es, id, m),
        distinct_ids(es),
    ensures
        mapped_item(es, singular, r) is None,
{
    if let Some(id) = r.reference(1) {
        if let Some(m) = record(es, id) {
            law_entity(es, id, EntityView::Simple { id, record: m }, m);
        }
    }
}

// ---------------------------------------------------------------------------
// Shells
// ---------------------------------------------------------------------------

/// Whether an orientation is `F`, with dots around it or without.
pub open spec fn is_dotted_f(e: Seq<char>) -> bool {
    exists|i: int| #[trigger]
        is_among_dots(e, i) && e[i] == 'F'
}

/// Whether all other characters are dots.
pub open spec fn is_among_dots(e: Seq<char>, i: int) -> bool {
    0 <= i < e.len() && forall|j: int|
        0 <= j < e.len() && j != i ==> #[trigger] e[j] == '.'
}

/// A reference to a shell is to the shell itself, the way it is. An oriented shell leads to the
/// shell in its third argument instead, which is reversed if its fourth argument is `F`.
pub proof fn law_shell_ref(es: Seq<EntityView>, id: u64, r: RecordView, inner: u64)
    requires
        distinct_ids(es),
    ensures
        (forall|r: RecordView| !#[trigger] has_record(es, id, r)) ==> shell_ref(es, id) == (
        ShellRef { id, reversed: false }),
        has_record(es, id, r) ==> {
            let oriented = r.name == "ORIENTED_CLOSED_SHELL"@ || r.name == "ORIENTED_OPEN_SHELL"@;
            &&& !oriented || refers_to_none(r, 2) ==> shell_ref(es, id) == (ShellRef {
                id,
                reversed: false,
            })
            &&& oriented && refers(r, 2, inner) ==> {
                &&& shell_ref(es, id).id == inner
                &&& shell_ref(es, id).reversed <==> r.arguments.len() > 3 && (
                r.arguments[3] matches ArgumentView::Enumeration(e) && is_dotted_f(e))
            }
        },
{
    if let Some(x) = record(es, id) {
        law_entity(es, id, EntityView::Simple { id, record: x }, x);
        assert(has_record(es, id, x));
    }
    law_entity(es, id, EntityView::Simple { id, record: r }, r);
    if r.arguments.len() > 3 {
        if let ArgumentView::Enumeration(e) = r.arguments[3] {
            if is_false(e) {
                let i = choose|i: int|
                    0 <= i < e.len() && #[trigger] e[i] == 'F' && forall|j: int|
                        0 <= j < e.len() && j != i ==> e[j] == '.';
                assert(is_among_dots(e, i));
            }
            if is_dotted_f(e) {
                let i = choose|i: int| #[trigger] is_among_dots(e, i) && e[i] == 'F';
                assert(e[i] == 'F');
            }
        }
    }
}

// ---------------------------------------------------------------------------
// Product structure
// ---------------------------------------------------------------------------

/// Whether an argument of the entity with an id, which has but one record, refers to another.
pub open spec fn steps(es: Seq<EntityView>, id: u64, index: int, to: u64) -> bool {
    exists|r: RecordView| #[trigger] has_record(es, id, r) && refers(r, index, to)
}

proof fn lemma_follow(es: Seq<EntityView>, id: u64, index: int, to: u64)
    requires
        distinct_ids(es),
    ensures
        follow(es, Some(id), index) == Some(to) <==> steps(es, id, index, to),
{
    if let Some(r) = record(es, id) {
        law_entity(es, id, EntityView::Simple { id, record: r }, r);
        assert(has_record(es, id, r));
    }
    if steps(es, id, index, to) {
        let r = choose|r: RecordView| #[trigger] has_record(es, id, r) && refers(r, index, to);
        law_entity(es, id, EntityView::Simple { id, record: r }, r);
    }
}

/// Whether a record says that a representation is one of a product definition.
pub open spec fn defines(es: Seq<EntityView>, x: RecordView, definition: u64, rep: u64) -> bool {
    &&& x.name == "SHAPE_DEFINITION_REPRESENTATION"@
    &&& refers(x, 1, rep)
    &&& exists|shape: u64| #[trigger] refers(x, 0, shape) && steps(es, shape, 2, definition)
}

/// Whether a record is one of an entity.
pub open spec fn occurs(es: Seq<EntityView>, i: int, k: int, x: RecordView) -> bool {
    0 <= i < es.len() && match es[i] {
        EntityView::Simple { record, .. } => k == 0 && x == record,
        EntityView::Complex { records, .. } => 0 <= k < records.len() && x == records[k],
    }
}

/// Whether a representation is one of a product definition.
pub open spec fn is_defined(es: Seq<EntityView>, definition: u64, rep: u64) -> bool {
    exists|i: int, k: int, x: RecordView| #[trigger]
        occurs(es, i, k, x) && defines(es, x, definition, rep)
}

proof fn lemma_defines(es: Seq<EntityView>, x: RecordView, definition: u64, rep: u64)
    requires
        distinct_ids(es),
    ensures
        definition_rep(es, x) == Some((definition, rep)) <==> defines(es, x, definition, rep),
{
    if let Some(shape) = x.reference(0) {
        lemma_follow(es, shape, 2, definition);
        assert(refers(x, 0, shape));
    }
}

/// A representation is one of a product definition if a record says so.
pub proof fn law_represents(es: Seq<EntityView>, definition: u64, rep: u64)
    requires
        distinct_ids(es),
    ensures
        represents(es, definition, rep) <==> is_defined(es, definition, rep),
{
    if represents(es, definition, rep) {
        let (i, k) = choose|i: int, k: int|
            0 <= i < es.len() && 0 <= k < es[i].records().len() && definition_rep(
                es,
                #[trigger] es[i].records()[k],
            ) == Some((definition, rep));
        let x = es[i].records()[k];
        lemma_defines(es, x, definition, rep);
        assert(occurs(es, i, k, x));
    }
    if is_defined(es, definition, rep) {
        let (i, k, x) = choose|i: int, k: int, x: RecordView| #[trigger]
            occurs(es, i, k, x) && defines(es, x, definition, rep);
        lemma_defines(es, x, definition, rep);
        assert(es[i].records()[k] == x);
    }
}

/// Whether the entity with an id has a first record named `REPRESENTATION_RELATIONSHIP`.
pub open spec fn relates(es: Seq<EntityView>, id: u64, e: EntityView, k: int) -> bool {
    &&& es.contains(e)
    &&& e.id() == id
    &&& is_first_record(
        e.records(),
        |x: RecordView| x.name == "REPRESENTATION_RELATIONSHIP"@,
        k,
    )
}

/// Whether a record gives a relationship a parent: it leads to an occurrence whose parent
/// definition has the parent as a representation, and the parent is one of the two that the
/// relationship is between. It is the first of them, or the second if the definition does not
/// have the first.
pub open spec fn gives_parent(
    es: Seq<EntityView>,
    r: RecordView,
    relationship: u64,
    parent: u64,
) -> bool {
    &&& r.name == "CONTEXT_DEPENDENT_SHAPE_REPRESENTATION"@
    &&& refers(r, 0, relationship)
    &&& exists|shape: u64, occurrence: u64, definition: u64, e: EntityView, k: int|
        {
            &&& refers(r, 1, shape)
            &&& #[trigger] steps(es, shape, 2, occurrence)
            &&& #[trigger] steps(es, occurrence, 3, definition)
            &&& #[trigger] relates(es, relationship, e, k)
            &&& is_defined(es, definition, parent)
            &&& {
                ||| refers(e.records()[k], 2, parent)
                ||| refers(e.records()[k], 3, parent) && forall|first: u64| #[trigger]
                    refers(e.records()[k], 2, first) ==> !is_defined(es, definition, first)
            }
        }
}

proof fn lemma_relates(es: Seq<EntityView>, id: u64) -> (r: (EntityView, int))
    requires
        distinct_ids(es),
    ensures
        match entity(es, id) {
            Some(e) => match first_record(
                e.records(),
                |x: RecordView| x.name == "REPRESENTATION_RELATIONSHIP"@,
            ) {
                Some(x) => r.0 == e && relates(es, id, e, r.1) && e.records()[r.1] == x,
                None => forall|e: EntityView, k: int| !#[trigger] relates(es, id, e, k),
            },
            None => forall|e: EntityView, k: int| !#[trigger] relates(es, id, e, k),
        },
{
    let wanted = |x: RecordView| x.name == "REPRESENTATION_RELATIONSHIP"@;
    assert forall|e: EntityView, k: int| #[trigger] relates(es, id, e, k) implies entity(es, id)
        == Some(e) && first_record(e.records(), wanted) == Some(e.records()[k]) by {
        lemma_entity(es, id, e);
        law_first_record(e.records(), wanted, k);
    }
    match entity(es, id) {
        Some(e) => {
            lemma_entity(es, id, e);
            if first_record(e.records(), wanted) is Some {
                let k = lemma_find(e.records(), wanted);
                assert(relates(es, id, e, k));
                law_first_record(e.records(), wanted, k);
                (e, k)
            } else {
                (e, 0)
            }
        },
        None => (arbitrary(), 0),
    }
}

pub(super) proof fn lemma_find(records: Seq<RecordView>, wanted: spec_fn(RecordView) -> bool) -> (k: int)
    requires
        first_record(records, wanted) is Some,
    ensures
        is_first_record(records, wanted, k),
    decreases records.len(),
{
    let rest = records.drop_last();
    if first_record(rest, wanted) is Some {
        let k = lemma_find(rest, wanted);
        assert(rest[k] == records[k]);
        assert forall|j: int| 0 <= j < k implies !wanted(#[trigger] records[j]) by {
            assert(rest[j] == records[j]);
        }
        k
    } else {
        assert forall|j: int| 0 <= j < rest.len() implies !wanted(#[trigger] records[j]) by {
            if wanted(records[j]) {
                lemma_none(rest, wanted, j);
            }
        }
        records.len() - 1
    }
}

proof fn lemma_none(records: Seq<RecordView>, wanted: spec_fn(RecordView) -> bool, j: int)
    requires
        0 <= j < records.len(),
        wanted(records[j]),
    ensures
        first_record(records, wanted) is Some,
    decreases records.len(),
{
    if j < records.len() - 1 {
        lemma_none(records.drop_last(), wanted, j);
    }
}

/// A record gives a relationship a parent if it says so by its names and references.
pub proof fn law_usage_parent(
    es: Seq<EntityView>,
    r: RecordView,
    relationship: u64,
    parent: u64,
)
    requires
        distinct_ids(es),
    ensures
        usage_parent(es, r) == Some((relationship, parent)) <==> gives_parent(
            es,
            r,
            relationship,
            parent,
        ),
{
    if usage_parent(es, r) == Some((relationship, parent)) {
        let shape = r.reference(1)->0;
        let occurrence = follow(es, Some(shape), 2)->0;
        lemma_follow(es, shape, 2, occurrence);
        let definition = follow(es, Some(occurrence), 3)->0;
        lemma_follow(es, occurrence, 3, definition);
        let (e, k) = lemma_relates(es, relationship);
        let x = e.records()[k];
        law_represents(es, definition, parent);
        if let Some(first) = x.reference(2) {
            law_represents(es, definition, first);
        }
        assert(steps(es, shape, 2, occurrence) && steps(es, occurrence, 3, definition) && relates(
            es,
            relationship,
            e,
            k,
        ));
    }
    if gives_parent(es, r, relationship, parent) {
        let (shape, occurrence, definition, e, k) = choose|
            shape: u64,
            occurrence: u64,
            definition: u64,
            e: EntityView,
            k: int,
        |
            {
                &&& refers(r, 1, shape)
                &&& #[trigger] steps(es, shape, 2, occurrence)
                &&& #[trigger] steps(es, occurrence, 3, definition)
                &&& #[trigger] relates(es, relationship, e, k)
                &&& is_defined(es, definition, parent)
                &&& {
                    ||| refers(e.records()[k], 2, parent)
                    ||| refers(e.records()[k], 3, parent) && forall|first: u64| #[trigger]
                        refers(e.records()[k], 2, first) ==> !is_defined(es, definition, first)
                }
            };
        lemma_follow(es, shape, 2, occurrence);
        lemma_follow(es, occurrence, 3, definition);
        lemma_entity(es, relationship, e);
        let wanted = |x: RecordView| x.name == "REPRESENTATION_RELATIONSHIP"@;
        law_first_record(e.records(), wanted, k);
        let x = e.records()[k];
        law_represents(es, definition, parent);
        if let Some(first) = x.reference(2) {
            law_represents(es, definition, first);
            assert(refers(x, 2, first));
        }
    }
}

/// Whether a record gives a relationship some parent.
pub open spec fn has_usage(es: Seq<EntityView>, r: RecordView, relationship: u64) -> bool {
    exists|parent: u64| gives_parent(es, r, relationship, parent)
}

/// Whether a record gives a relationship a parent and no record behind it does.
pub open spec fn is_last_usage(
    es: Seq<EntityView>,
    records: Seq<RecordView>,
    k: int,
    relationship: u64,
    parent: u64,
) -> bool {
    &&& 0 <= k < records.len()
    &&& gives_parent(es, records[k], relationship, parent)
    &&& forall|j: int| k < j < records.len() ==> !has_usage(es, #[trigger] records[j], relationship)
}

/// A relationship has the parent that the last record that gives it one gives it, and none if no
/// record does.
pub proof fn law_parents(
    es: Seq<EntityView>,
    records: Seq<RecordView>,
    k: int,
    relationship: u64,
    parent: u64,
)
    requires
        distinct_ids(es),
    ensures
        is_last_usage(es, records, k, relationship, parent) ==> parents_by(es, records).contains_key(
            relationship,
        ) && parents_by(es, records)[relationship] == parent,
        parents_by(es, records).contains_key(relationship) <==> exists|j: int|
            0 <= j < records.len() && has_usage(es, #[trigger] records[j], relationship),
        parents_by(es, records).contains_key(relationship) ==> exists|j: int|
            0 <= j < records.len() && gives_parent(
                es,
                #[trigger] records[j],
                relationship,
                parents_by(es, records)[relationship],
            ),
    decreases records.len(),
{
    if records.len() > 0 {
        let rest = records.drop_last();
        let last = records.last();
        let n = rest.len() as int;
        assert(records[n] == last);
        law_parents(es, rest, k, relationship, parent);
        assert(has_usage(es, last, relationship) <==> usage_parent(es, last) is Some && usage_parent(
            es,
            last,
        )->Some_0.0 == relationship) by {
            if let Some((x, y)) = usage_parent(es, last) {
                law_usage_parent(es, last, x, y);
            }
            if has_usage(es, last, relationship) {
                let y = choose|y: u64| gives_parent(es, last, relationship, y);
                law_usage_parent(es, last, relationship, y);
            }
        }
        if is_last_usage(es, records, k, relationship, parent) {
            law_usage_parent(es, records[k], relationship, parent);
            if k < n {
                assert(!has_usage(es, records[n], relationship));
                assert(is_last_usage(es, rest, k, relationship, parent)) by {
                    assert(rest[k] == records[k]);
                    assert forall|j: int| k < j < rest.len() implies !has_usage(
                        es,
                        #[trigger] rest[j],
                        relationship,
                    ) by {
                        assert(rest[j] == records[j]);
                    }
                }
            }
        }
        if parents_by(es, records).contains_key(relationship) {
            let p = parents_by(es, records)[relationship];
            if has_usage(es, last, relationship) {
                law_usage_parent(es, last, relationship, p);
                assert(gives_parent(es, records[n], relationship, p));
            } else {
                let j = choose|j: int|
                    0 <= j < rest.len() && gives_parent(es, #[trigger] rest[j], relationship, p);
                assert(records[j] == rest[j]);
                assert(has_usage(es, records[j], relationship));
            }
        } else if exists|j: int|
            0 <= j < records.len() && has_usage(es, #[trigger] records[j], relationship) {
            let j = choose|j: int|
                0 <= j < records.len() && has_usage(es, #[trigger] records[j], relationship);
            if j < n {
                assert(has_usage(es, rest[j], relationship));
            }
        }
    }
}

/// The records of several entities are those of each, one after the other, and the parents are
/// those that all of them give.
pub proof fn law_records(es: Seq<EntityView>, n: int)
    requires
        0 <= n < es.len(),
    ensures
        parents(es) == parents_by(es, records_of(es, es.len() as int)),
        records_of(es, 0).len() == 0,
        match es[n] {
            EntityView::Simple { record, .. } => records_of(es, n + 1) == records_of(es, n).push(
                record,
            ),
            EntityView::Complex { records, .. } => records_of(es, n + 1) == records_of(es, n)
                + records,
        },
{
    if let EntityView::Simple { record, .. } = es[n] {
        assert(records_of(es, n) + seq![record] =~= records_of(es, n).push(record));
    }
}

} // verus!

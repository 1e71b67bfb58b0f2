//! What holds of the representations of a data section.
use vstd::prelude::*;

use super::assembly::{
    distinct_ids, mapped_item, parents, record, shell_ref, transformation, Transform,
};
use super::assembly_laws::{
    has_record, is_first_record, law_entity, law_first_record, law_transformation,
    leads_to_placement, refers, refers_to_none,
};
use super::entity::{EntityView, RecordView};
use super::structure::{
    accounted_for, drawn_shells, graph, hidden_shells, is_relationship, is_shape_representation,
    relationship_transformation, with_drawn, with_entity, with_hidden, with_item, with_items, Graph,
};

verus! {

// ---------------------------------------------------------------------------
// Relationships
// ---------------------------------------------------------------------------

/// Whether a record says that two representations are related.
pub open spec fn is_related(r: RecordView) -> bool {
    (r.name == "REPRESENTATION_RELATIONSHIP"@ || r.name == "SHAPE_REPRESENTATION_RELATIONSHIP"@)
        && r.arguments.len() >= 4
}

/// Whether an entity is a relationship between two representations: its first record that relates
/// any has them as its third and its fourth argument.
pub open spec fn is_between(e: EntityView, k: int, first: u64, second: u64) -> bool {
    let records = e.records();
    &&& 0 <= k < records.len()
    &&& is_related(records[k])
    &&& forall|j: int| 0 <= j < k ==> !is_related(#[trigger] records[j])
    &&& refers(records[k], 2, first)
    &&& refers(records[k], 3, second)
}

/// Whether an entity has a transformation: the first argument of its first record that has one.
pub open spec fn is_transformed(e: EntityView, k: int, transformation: u64) -> bool {
    let records = e.records();
    &&& 0 <= k < records.len()
    &&& records[k].name == "REPRESENTATION_RELATIONSHIP_WITH_TRANSFORMATION"@
    &&& forall|j: int|
        0 <= j < k ==> (#[trigger] records[j]).name
            != "REPRESENTATION_RELATIONSHIP_WITH_TRANSFORMATION"@
    &&& refers(records[k], 0, transformation)
}

proof fn lemma_between(e: EntityView, k: int, first: u64, second: u64)
    requires
        is_between(e, k, first, second),
    ensures
        first_relationship(e) == Some(e.records()[k]),
        e.records()[k].reference(2) == Some(first),
        e.records()[k].reference(3) == Some(second),
{
    let records = e.records();
    let wanted = |r: RecordView| is_relationship(r);
    assert forall|j: int| 0 <= j < k implies !wanted(#[trigger] records[j]) by {
        assert(!is_related(records[j]));
    }
    law_first_record(records, wanted, k);
}

/// The first record of an entity that relates representations.
spec fn first_relationship(e: EntityView) -> Option<RecordView> {
    super::entity::first_record(e.records(), |r: RecordView| is_relationship(r))
}

proof fn lemma_transformed(e: EntityView, k: int, transformation: u64)
    requires
        is_transformed(e, k, transformation),
    ensures
        relationship_transformation(e) == Some(transformation),
{
    let wanted = |r: RecordView| r.name == "REPRESENTATION_RELATIONSHIP_WITH_TRANSFORMATION"@;
    law_first_record(e.records(), wanted, k);
}

/// A relationship without a transformation links its two representations, both ways, and does
/// nothing else. If it has records that could have one, it is the first of them that counts.
pub proof fn law_linked(
    es: Seq<EntityView>,
    singular: Set<u64>,
    g: Graph,
    e: EntityView,
    k: int,
    first: u64,
    second: u64,
    t_at: int,
)
    requires
        is_between(e, k, first, second),
        0 <= t_at <= e.records().len(),
        forall|j: int|
            0 <= j < t_at ==> (#[trigger] e.records()[j]).name
                != "REPRESENTATION_RELATIONSHIP_WITH_TRANSFORMATION"@,
        t_at < e.records().len() ==> e.records()[t_at].name
            == "REPRESENTATION_RELATIONSHIP_WITH_TRANSFORMATION"@ && refers_to_none(
            e.records()[t_at],
            0,
        ),
    ensures
        ({
            let after = with_entity(es, singular, g, e);
            &&& after.links == g.links + seq![(first, second), (second, first)]
            &&& after.children == g.children
            &&& after.shells == g.shells
            &&& after.marks == g.marks
        }),
{
    lemma_between(e, k, first, second);
    let wanted = |r: RecordView| r.name == "REPRESENTATION_RELATIONSHIP_WITH_TRANSFORMATION"@;
    law_first_record(e.records(), wanted, t_at);
    assert(relationship_transformation(e) is None);
    assert(with_entity(es, singular, g, e).links =~= g.links + seq![
        (first, second),
        (second, first),
    ]);
}

/// A relationship with a transformation adds exactly one entry: one of its two representations is
/// placed inside the other. The parent is the one that the product structure names, and the child
/// is the other one. Where the product structure names none of the two, the second is the parent.
pub proof fn law_child_of_relationship(
    es: Seq<EntityView>,
    singular: Set<u64>,
    g: Graph,
    e: EntityView,
    k: int,
    first: u64,
    second: u64,
    t_at: int,
    t: u64,
)
    requires
        is_between(e, k, first, second),
        is_transformed(e, t_at, t),
    ensures
        ({
            let after = with_entity(es, singular, g, e);
            let ps = parents(es);
            let id = e.id();
            let (parent, (child, transform)) = after.children.last();
            &&& after.links == g.links
            &&& after.shells == g.shells
            &&& after.marks == g.marks
            &&& after.children.len() == g.children.len() + 1
            &&& after.children.drop_last() == g.children
            &&& ps.contains_key(id) && ps[id] == first ==> parent == first && child == second
            &&& ps.contains_key(id) && ps[id] == second && first != second ==> parent == second
                && child == first
            &&& !ps.contains_key(id) || (ps[id] != first && ps[id] != second) ==> parent == second
                && child == first
            &&& transform == transformation(
                es,
                t,
                ps.contains_key(id) && ps[id] == first,
            )
        }),
{
    lemma_between(e, k, first, second);
    lemma_transformed(e, t_at, t);
    let after = with_entity(es, singular, g, e);
    assert(after.children.drop_last() =~= g.children);
}

/// The transform of that entry goes from the placement of the child's item to that of the
/// parent's item. The third argument of the transformation leads to the item of the first
/// representation, the fourth to that of the second. So when the second representation is the
/// parent, the transform goes from the first item's placement to the second item's, and when the
/// first is, from the second item's to the first item's.
pub proof fn law_child_transform(
    es: Seq<EntityView>,
    singular: Set<u64>,
    g: Graph,
    e: EntityView,
    k: int,
    first: u64,
    second: u64,
    t_at: int,
    t: u64,
    tr: RecordView,
    first_item: u64,
    second_item: u64,
)
    requires
        distinct_ids(es),
        is_between(e, k, first, second),
        is_transformed(e, t_at, t),
        has_record(es, t, tr),
        tr.name == "ITEM_DEFINED_TRANSFORMATION"@,
        leads_to_placement(es, tr, 2, first_item),
        leads_to_placement(es, tr, 3, second_item),
    ensures
        ({
            let children = with_entity(es, singular, g, e).children;
            let ps = parents(es);
            let id = e.id();
            if ps.contains_key(id) && ps[id] == first {
                children == g.children.push(
                    (first, (second, Transform::Between { parent: first_item, child: second_item })),
                )
            } else {
                children == g.children.push(
                    (second, (first, Transform::Between { parent: second_item, child: first_item })),
                )
            }
        }),
{
    lemma_between(e, k, first, second);
    lemma_transformed(e, t_at, t);
    law_transformation(es, t, tr, first_item, second_item);
}

/// A relationship that does not refer to two representations adds nothing.
pub proof fn law_relationship_incomplete(
    es: Seq<EntityView>,
    singular: Set<u64>,
    g: Graph,
    e: EntityView,
    k: int,
)
    requires
        0 <= k < e.records().len(),
        is_related(e.records()[k]),
        forall|j: int| 0 <= j < k ==> !is_related(#[trigger] e.records()[j]),
        refers_to_none(e.records()[k], 2) || refers_to_none(e.records()[k], 3),
    ensures
        with_entity(es, singular, g, e) == g,
{
    let records = e.records();
    let wanted = |r: RecordView| is_relationship(r);
    assert forall|j: int| 0 <= j < k implies !wanted(#[trigger] records[j]) by {
        assert(!is_related(records[j]));
    }
    law_first_record(records, wanted, k);
}

// ---------------------------------------------------------------------------
// Shape representations
// ---------------------------------------------------------------------------

/// Whether a record is a shape representation: its name ends in `SHAPE_REPRESENTATION`, and it
/// is not one that only depends on a context.
pub open spec fn is_shape(r: RecordView) -> bool {
    let end = "SHAPE_REPRESENTATION"@;
    &&& r.name.len() >= end.len()
    &&& r.name.skip(r.name.len() - end.len()) == end
    &&& r.name != "CONTEXT_DEPENDENT_SHAPE_REPRESENTATION"@
}

proof fn lemma_shape(r: RecordView)
    ensures
        is_shape_representation(r.name) <==> is_shape(r),
{
    let end = "SHAPE_REPRESENTATION"@;
    if r.name.len() >= end.len() {
        assert(r.name.skip(r.name.len() - end.len()) =~= r.name.subrange(
            r.name.len() - end.len(),
            r.name.len() as int,
        ));
    }
}

/// An entity that is no relationship shows the items that its first shape representation lists as
/// its second argument, under its own id. One without a shape representation adds nothing.
pub proof fn law_shape_representation(
    es: Seq<EntityView>,
    singular: Set<u64>,
    g: Graph,
    e: EntityView,
    k: int,
)
    requires
        forall|j: int| 0 <= j < e.records().len() ==> !is_related(#[trigger] e.records()[j]),
    ensures
        0 <= k < e.records().len() && is_shape(e.records()[k]) && (forall|j: int|
            0 <= j < k ==> !is_shape(#[trigger] e.records()[j])) ==> with_entity(
            es,
            singular,
            g,
            e,
        ) == with_items(es, singular, g, e.id(), e.records()[k].references(1)),
        (forall|j: int| 0 <= j < e.records().len() ==> !is_shape(#[trigger] e.records()[j]))
            ==> with_entity(es, singular, g, e) == g,
{
    let records = e.records();
    let wanted = |r: RecordView| is_relationship(r);
    assert forall|j: int| 0 <= j < records.len() implies !wanted(#[trigger] records[j]) by {
        assert(!is_related(records[j]));
    }
    law_first_record(records, wanted, 0);
    let shape = |r: RecordView| is_shape_representation(r.name);
    assert forall|j: int| 0 <= j < records.len() implies (#[trigger] shape(records[j]) <==> is_shape(
        records[j],
    )) by {
        lemma_shape(records[j]);
    }
    if 0 <= k < records.len() && is_shape(records[k]) && (forall|j: int|
        0 <= j < k ==> !is_shape(#[trigger] records[j])) {
        assert forall|j: int| 0 <= j < k implies !shape(#[trigger] records[j]) by {
            assert(!is_shape(records[j]));
        }
        assert(shape(records[k]));
        assert(is_first_record(records, shape, k));
    }
    if forall|j: int| 0 <= j < records.len() ==> !is_shape(#[trigger] records[j]) {
        assert forall|j: int| 0 <= j < records.len() implies !shape(#[trigger] records[j]) by {
            assert(!is_shape(records[j]));
        }
    }
    law_first_record(records, shape, k);
}

/// Items are added one after the other.
pub proof fn law_items(
    es: Seq<EntityView>,
    singular: Set<u64>,
    g: Graph,
    rep: u64,
    a: Seq<u64>,
    b: Seq<u64>,
    item: u64,
)
    ensures
        with_items(es, singular, g, rep, a + b) == with_items(
            es,
            singular,
            with_items(es, singular, g, rep, a),
            rep,
            b,
        ),
        with_items(es, singular, g, rep, seq![item]) == with_item(es, singular, g, rep, item),
        with_items(es, singular, g, rep, Seq::empty()) == g,
    decreases b.len(),
{
    reveal_with_fuel(with_items, 2);
    assert(seq![item].drop_last() =~= Seq::empty());
    if b.len() == 0 {
        assert(a + b =~= a);
    } else {
        law_items(es, singular, g, rep, a, b.drop_last(), item);
        assert((a + b).drop_last() =~= a + b.drop_last());
        assert((a + b).last() == b.last());
    }
}

/// A mapped item adds the representation that it places inside the one that shows it.
pub proof fn law_mapped(
    es: Seq<EntityView>,
    singular: Set<u64>,
    g: Graph,
    rep: u64,
    item: u64,
    r: RecordView,
)
    requires
        distinct_ids(es),
        has_record(es, item, r),
        r.name == "MAPPED_ITEM"@,
    ensures
        ({
            let after = with_item(es, singular, g, rep, item);
            &&& after.links == g.links && after.shells == g.shells && after.marks == g.marks
            &&& after.children == match mapped_item(es, singular, r) {
                Some((child, transform)) => g.children.push((rep, (child, transform))),
                None => g.children,
            }
        }),
{
    law_entity(es, item, EntityView::Simple { id: item, record: r }, r);
}

proof fn lemma_different(name: Seq<char>)
    ensures
        name == "MANIFOLD_SOLID_BREP"@ || name == "FACETED_BREP"@ || name == "BREP_WITH_VOIDS"@
            || name == "SHELL_BASED_SURFACE_MODEL"@ ==> name != "MAPPED_ITEM"@,
        name == "SHELL_BASED_SURFACE_MODEL"@ ==> name != "MANIFOLD_SOLID_BREP"@ && name
            != "FACETED_BREP"@ && name != "BREP_WITH_VOIDS"@,
        name == "MANIFOLD_SOLID_BREP"@ || name == "FACETED_BREP"@ ==> name != "BREP_WITH_VOIDS"@,
{
    reveal_strlit("MANIFOLD_SOLID_BREP");
    reveal_strlit("FACETED_BREP");
    reveal_strlit("BREP_WITH_VOIDS");
    reveal_strlit("SHELL_BASED_SURFACE_MODEL");
    reveal_strlit("MAPPED_ITEM");
    assert("MANIFOLD_SOLID_BREP"@.len() == 19);
    assert("FACETED_BREP"@.len() == 12);
    assert("BREP_WITH_VOIDS"@.len() == 15);
    assert("SHELL_BASED_SURFACE_MODEL"@.len() == 25);
    assert("MAPPED_ITEM"@.len() == 11);
}

/// A solid shows the shell in its second argument. That shell is accounted for, and so are the
/// voids in the third argument of a solid that has them, which are never shown.
pub proof fn law_solid(
    es: Seq<EntityView>,
    singular: Set<u64>,
    g: Graph,
    rep: u64,
    item: u64,
    r: RecordView,
    outer: u64,
)
    requires
        distinct_ids(es),
        has_record(es, item, r),
        r.name == "MANIFOLD_SOLID_BREP"@ || r.name == "FACETED_BREP"@ || r.name
            == "BREP_WITH_VOIDS"@,
        refers(r, 1, outer) || refers_to_none(r, 1),
    ensures
        ({
            let after = with_item(es, singular, g, rep, item);
            let voids = if r.name == "BREP_WITH_VOIDS"@ {
                r.references(2)
            } else {
                Seq::empty()
            };
            &&& after.links == g.links && after.children == g.children
            &&& refers(r, 1, outer) ==> after.shells == g.shells.push((rep, shell_ref(es, outer)))
                && after.marks == g.marks.push(outer) + voids
            &&& refers_to_none(r, 1) ==> after.shells == g.shells && after.marks == g.marks + voids
        }),
{
    law_entity(es, item, EntityView::Simple { id: item, record: r }, r);
    lemma_different(r.name);
    let drawn = drawn_shells(r);
    lemma_with_drawn(es, g, rep, drawn);
    let middle = with_drawn(es, g, rep, drawn);
    lemma_with_hidden(middle, hidden_shells(r));
    let after = with_item(es, singular, g, rep, item);
    if refers(r, 1, outer) {
        assert(drawn =~= seq![outer]);
        assert(middle.marks =~= g.marks.push(outer));
        assert(middle.shells =~= g.shells.push((rep, shell_ref(es, outer))));
    } else {
        assert(drawn =~= Seq::empty());
        assert(middle.marks =~= g.marks);
        assert(middle.shells =~= g.shells);
    }
}

proof fn lemma_with_drawn(es: Seq<EntityView>, g: Graph, rep: u64, shells: Seq<u64>)
    ensures
        ({
            let after = with_drawn(es, g, rep, shells);
            &&& after.links == g.links && after.children == g.children
            &&& after.marks == g.marks + shells
            &&& after.shells == g.shells + Seq::new(
                shells.len(),
                |i: int| (rep, shell_ref(es, shells[i])),
            )
        }),
    decreases shells.len(),
{
    let after = with_drawn(es, g, rep, shells);
    if shells.len() > 0 {
        lemma_with_drawn(es, g, rep, shells.drop_last());
    }
    assert(after.marks =~= g.marks + shells);
    assert(after.shells =~= g.shells + Seq::new(
        shells.len(),
        |i: int| (rep, shell_ref(es, shells[i])),
    ));
}

proof fn lemma_with_hidden(g: Graph, shells: Seq<u64>)
    ensures
        ({
            let after = with_hidden(g, shells);
            &&& after.links == g.links && after.children == g.children && after.shells == g.shells
            &&& after.marks == g.marks + shells
        }),
    decreases shells.len(),
{
    if shells.len() > 0 {
        lemma_with_hidden(g, shells.drop_last());
    }
    assert(with_hidden(g, shells).marks =~= g.marks + shells);
}

/// A surface model shows every shell that its second argument lists, in order, and all of them
/// are accounted for.
pub proof fn law_surface_model(
    es: Seq<EntityView>,
    singular: Set<u64>,
    g: Graph,
    rep: u64,
    item: u64,
    r: RecordView,
)
    requires
        distinct_ids(es),
        has_record(es, item, r),
        r.name == "SHELL_BASED_SURFACE_MODEL"@,
    ensures
        ({
            let after = with_item(es, singular, g, rep, item);
            let shells = r.references(1);
            &&& after.links == g.links && after.children == g.children
            &&& after.marks == g.marks + shells
            &&& after.shells == g.shells + Seq::new(
                shells.len(),
                |i: int| (rep, shell_ref(es, shells[i])),
            )
        }),
{
    law_entity(es, item, EntityView::Simple { id: item, record: r }, r);
    lemma_different(r.name);
    lemma_with_drawn(es, g, rep, drawn_shells(r));
    lemma_with_hidden(with_drawn(es, g, rep, drawn_shells(r)), hidden_shells(r));
    assert(hidden_shells(r) =~= Seq::empty());
    let after = with_item(es, singular, g, rep, item);
    assert(after.marks =~= g.marks + r.references(1));
}

/// Any other item adds nothing.
pub proof fn law_other_item(
    es: Seq<EntityView>,
    singular: Set<u64>,
    g: Graph,
    rep: u64,
    item: u64,
)
    requires
        distinct_ids(es),
        forall|r: RecordView| #[trigger]
            has_record(es, item, r) ==> r.name != "MAPPED_ITEM"@ && r.name
                != "MANIFOLD_SOLID_BREP"@ && r.name != "FACETED_BREP"@ && r.name
                != "BREP_WITH_VOIDS"@ && r.name != "SHELL_BASED_SURFACE_MODEL"@,
    ensures
        with_item(es, singular, g, rep, item) == g,
{
    if let Some(r) = record(es, item) {
        law_entity(es, item, EntityView::Simple { id: item, record: r }, r);
        assert(has_record(es, item, r));
        lemma_with_drawn(es, g, rep, drawn_shells(r));
        lemma_with_hidden(with_drawn(es, g, rep, drawn_shells(r)), hidden_shells(r));
        assert(drawn_shells(r) =~= Seq::empty());
        assert(hidden_shells(r) =~= Seq::empty());
    }
}

/// A shell is accounted for if a mark is a reference to it, or leads to it by way of an oriented
/// shell.
pub proof fn law_accounted_for(es: Seq<EntityView>, marks: Seq<u64>, mark: u64, id: u64)
    ensures
        marks.contains(mark) ==> accounted_for(es, marks, mark) && accounted_for(
            es,
            marks,
            shell_ref(es, mark).id,
        ),
        accounted_for(es, marks, id) && !marks.contains(id) ==> exists|mark: u64| #[trigger]
            marks.contains(mark) && shell_ref(es, mark).id == id,
{
    if marks.contains(mark) {
        let i = choose|i: int| 0 <= i < marks.len() && marks[i] == mark;
        assert(marks[i] == mark);
    }
    if accounted_for(es, marks, id) && !marks.contains(id) {
        let i = choose|i: int|
            0 <= i < marks.len() && (#[trigger] marks[i] == id || shell_ref(es, marks[i]).id == id);
        assert(marks.contains(marks[i]));
    }
}

// ---------------------------------------------------------------------------
// All entities
// ---------------------------------------------------------------------------

/// Whether a graph has at least what another has, in the same places.
pub open spec fn extends(g: Graph, h: Graph) -> bool {
    &&& g.links.is_prefix_of(h.links)
    &&& g.children.is_prefix_of(h.children)
    &&& g.shells.is_prefix_of(h.shells)
    &&& g.marks.is_prefix_of(h.marks)
}

/// Every entity adds what it adds to the graph of those before it, and nothing is ever taken away.
pub proof fn law_graph(es: Seq<EntityView>, singular: Set<u64>, n: int)
    requires
        0 <= n < es.len(),
    ensures
        ({
            let none = graph(es, singular, 0);
            none.links.len() == 0 && none.children.len() == 0 && none.shells.len() == 0
                && none.marks.len() == 0
        }),
        graph(es, singular, n + 1) == with_entity(es, singular, graph(es, singular, n), es[n]),
        extends(graph(es, singular, n), graph(es, singular, n + 1)),
{
    lemma_entity_extends(es, singular, graph(es, singular, n), es[n]);
}

proof fn lemma_item_extends(
    es: Seq<EntityView>,
    singular: Set<u64>,
    g: Graph,
    rep: u64,
    item: u64,
)
    ensures
        extends(g, with_item(es, singular, g, rep, item)),
{
    if let Some(r) = record(es, item) {
        lemma_with_drawn(es, g, rep, drawn_shells(r));
        lemma_with_hidden(with_drawn(es, g, rep, drawn_shells(r)), hidden_shells(r));
    }
    let h = with_item(es, singular, g, rep, item);
    assert(g.links =~= h.links.subrange(0, g.links.len() as int));
    assert(g.children =~= h.children.subrange(0, g.children.len() as int));
    assert(g.shells =~= h.shells.subrange(0, g.shells.len() as int));
    assert(g.marks =~= h.marks.subrange(0, g.marks.len() as int));
}

proof fn lemma_items_extend(
    es: Seq<EntityView>,
    singular: Set<u64>,
    g: Graph,
    rep: u64,
    items: Seq<u64>,
)
    ensures
        extends(g, with_items(es, singular, g, rep, items)),
    decreases items.len(),
{
    if items.len() > 0 {
        let middle = with_items(es, singular, g, rep, items.drop_last());
        lemma_items_extend(es, singular, g, rep, items.drop_last());
        lemma_item_extends(es, singular, middle, rep, items.last());
        let h = with_items(es, singular, g, rep, items);
        assert(g.links =~= h.links.subrange(0, g.links.len() as int));
        assert(g.children =~= h.children.subrange(0, g.children.len() as int));
        assert(g.shells =~= h.shells.subrange(0, g.shells.len() as int));
        assert(g.marks =~= h.marks.subrange(0, g.marks.len() as int));
    } else {
        assert(g.links =~= g.links.subrange(0, g.links.len() as int));
        assert(g.children =~= g.children.subrange(0, g.children.len() as int));
        assert(g.shells =~= g.shells.subrange(0, g.shells.len() as int));
        assert(g.marks =~= g.marks.subrange(0, g.marks.len() as int));
    }
}

proof fn lemma_entity_extends(
    es: Seq<EntityView>,
    singular: Set<u64>,
    g: Graph,
    e: EntityView,
)
    ensures
        extends(g, with_entity(es, singular, g, e)),
{
    if first_relationship(e) is None {
        if let Some(r) = super::entity::first_record(
            e.records(),
            |r: RecordView| is_shape_representation(r.name),
        ) {
            lemma_items_extend(es, singular, g, e.id(), r.references(1));
        }
    }
    let h = with_entity(es, singular, g, e);
    assert(g.links =~= h.links.subrange(0, g.links.len() as int));
    assert(g.children =~= h.children.subrange(0, g.children.len() as int));
    assert(g.shells =~= h.shells.subrange(0, g.shells.len() as int));
    assert(g.marks =~= h.marks.subrange(0, g.marks.len() as int));
}

} // verus!

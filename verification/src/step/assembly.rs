//! The parts of the STEP entity graph that say where each shell is placed.
use std::collections::{HashMap, HashSet};
use vstd::prelude::*;

use super::entity::{
    entities_view, first_record, Argument, ArgumentView, Entity, EntityView, Item, Record, RecordView,
};
use super::lists::Lists;
use crate::sequences::lemma_push_contains;
use crate::text;

verus! {

/// One coordinate of a point or direction.
#[derive(Clone, Copy, PartialEq, Eq, Structural, Debug)]
pub enum Number {
    /// A real number in double precision, as its bit pattern.
    Real(u64),
    /// An integer.
    Integer(i64),
}

/// The coordinates of a CARTESIAN_POINT or DIRECTION.
#[derive(Clone, Copy, PartialEq, Eq, Structural, Debug)]
pub struct Coordinates {
    pub x: Number,
    pub y: Number,
    pub z: Number,
}

/// An AXIS2_PLACEMENT_3D: a coordinate system inside another one.
#[derive(Clone, Copy, PartialEq, Eq, Structural, Debug)]
pub struct Placement {
    pub location: Coordinates,
    /// The direction of the z axis. The parent's z axis when not given.
    pub axis: Option<Coordinates>,
    /// The direction of the x axis, as far as it is perpendicular to the z axis. The parent's
    /// x axis when not given.
    pub ref_direction: Option<Coordinates>,
}

/// A transform from a child's coordinates to its parent's. The numbers name placements.
#[derive(Clone, Copy, PartialEq, Eq, Structural, Debug)]
pub enum Transform {
    Identity,
    /// The parent's placement times the inverse of the child's, or the parent's placement alone
    /// when the child's has no inverse.
    Between { parent: u64, child: u64 },
    /// The target placement times the inverse of the origin placement.
    Onto { target: u64, origin: u64 },
    /// The target placement.
    At { target: u64 },
}

/// A shell as referenced from a solid or surface model, possibly with its faces reversed.
#[derive(Clone, Copy, PartialEq, Eq, Structural, Debug)]
pub struct ShellRef {
    pub id: u64,
    pub reversed: bool,
}

// ---------------------------------------------------------------------------
// Looking entities up
// ---------------------------------------------------------------------------

/// No two entities have the same id.
pub open spec fn distinct_ids(es: Seq<EntityView>) -> bool {
    forall|i: int, j: int|
        0 <= i < es.len() && 0 <= j < es.len() && #[trigger] es[i].id() == #[trigger] es[j].id()
            ==> i == j
}

/// The entity with an id.
pub open spec fn entity(es: Seq<EntityView>, id: u64) -> Option<EntityView> {
    if exists|i: int| 0 <= i < es.len() && #[trigger] es[i].id() == id {
        Some(es[choose|i: int| 0 <= i < es.len() && #[trigger] es[i].id() == id])
    } else {
        None
    }
}

/// The record of the simple entity with an id.
pub open spec fn record(es: Seq<EntityView>, id: u64) -> Option<RecordView> {
    match entity(es, id) {
        Some(EntityView::Simple { record, .. }) => Some(record),
        _ => None,
    }
}

/// The entity that an argument of another entity's record refers to, over two steps.
pub open spec fn follow(es: Seq<EntityView>, id: Option<u64>, index: int) -> Option<u64> {
    match id {
        Some(id) => match record(es, id) {
            Some(r) => r.reference(index),
            None => None,
        },
        None => None,
    }
}

/// Whether the entity at an index is the last definition of its id.
pub open spec fn is_last_definition(es: Seq<EntityView>, i: int) -> bool {
    forall|j: int| i < j < es.len() ==> #[trigger] es[j].id() != es[i].id()
}

/// Of the first entities, those that are the last definitions of their ids.
pub open spec fn last_definitions(es: Seq<EntityView>, n: int) -> Seq<EntityView>
    decreases n,
{
    if n <= 0 {
        Seq::empty()
    } else if is_last_definition(es, n - 1) {
        last_definitions(es, n - 1).push(es[n - 1])
    } else {
        last_definitions(es, n - 1)
    }
}

// ---------------------------------------------------------------------------
// Placements
// ---------------------------------------------------------------------------

/// The number at an index of a list of coordinates: zero past its end.
pub open spec fn number(items: Seq<Item>, index: int) -> Option<Number> {
    if index < items.len() {
        match items[index] {
            Item::Real(bits) => Some(Number::Real(bits)),
            Item::Integer(value) => Some(Number::Integer(value)),
            _ => None,
        }
    } else {
        Some(Number::Real(0))
    }
}

/// The coordinates of a CARTESIAN_POINT or DIRECTION.
pub open spec fn coordinates(es: Seq<EntityView>, id: u64) -> Option<Coordinates> {
    match record(es, id) {
        Some(r) => if 1 < r.arguments.len() {
            match r.arguments[1] {
                ArgumentView::List(items) => match (
                    number(items, 0),
                    number(items, 1),
                    number(items, 2),
                ) {
                    (Some(x), Some(y), Some(z)) => Some(Coordinates { x, y, z }),
                    _ => None,
                },
                _ => None,
            }
        } else {
            None
        },
        None => None,
    }
}

/// The coordinates that a reference leads to.
pub open spec fn coordinates_at(es: Seq<EntityView>, id: Option<u64>) -> Option<Coordinates> {
    match id {
        Some(id) => coordinates(es, id),
        None => None,
    }
}

/// The placement that an AXIS2_PLACEMENT_3D(name, location, axis, ref_direction) describes.
pub open spec fn placement(es: Seq<EntityView>, id: u64) -> Option<Placement> {
    match record(es, id) {
        Some(r) => if r.name == "AXIS2_PLACEMENT_3D"@ {
            match coordinates_at(es, r.reference(1)) {
                Some(location) => Some(
                    Placement {
                        location,
                        axis: coordinates_at(es, r.reference(2)),
                        ref_direction: coordinates_at(es, r.reference(3)),
                    },
                ),
                None => None,
            }
        } else {
            None
        },
        None => None,
    }
}

/// A reference to a placement.
pub open spec fn placed_at(es: Seq<EntityView>, id: Option<u64>) -> Option<u64> {
    match id {
        Some(id) => if placement(es, id) is Some {
            Some(id)
        } else {
            None
        },
        None => None,
    }
}

/// The transform from the child's coordinates to the parent's for an
/// ITEM_DEFINED_TRANSFORMATION, whose first item is in the first representation and whose second
/// item is in the second.
pub open spec fn transformation(es: Seq<EntityView>, id: u64, parent_first: bool) -> Transform {
    match record(es, id) {
        Some(r) => if r.name == "ITEM_DEFINED_TRANSFORMATION"@ {
            let first = placed_at(es, r.reference(2));
            let second = placed_at(es, r.reference(3));
            match (first, second) {
                (Some(first), Some(second)) => if parent_first {
                    Transform::Between { parent: first, child: second }
                } else {
                    Transform::Between { parent: second, child: first }
                },
                _ => Transform::Identity,
            }
        } else {
            Transform::Identity
        },
        None => Transform::Identity,
    }
}

/// The placement of the origin that a MAPPED_ITEM moves onto a target placement.
pub open spec fn mapped_origin(es: Seq<EntityView>, r: RecordView) -> Option<u64> {
    placed_at(es, follow(es, r.reference(1), 0))
}

/// MAPPED_ITEM(name, REPRESENTATION_MAP(origin, representation), target) places a copy of a
/// representation's origin at the target. There is no such copy when the origin is one of the
/// `singular` placements, which have no inverse, and has to be moved.
pub open spec fn mapped_item(es: Seq<EntityView>, singular: Set<u64>, r: RecordView) -> Option<
    (u64, Transform),
> {
    match follow(es, r.reference(1), 1) {
        Some(child) => match (placed_at(es, r.reference(2)), mapped_origin(es, r)) {
            (Some(target), Some(origin)) => if singular.contains(origin) {
                None
            } else {
                Some((child, Transform::Onto { target, origin }))
            },
            (Some(target), None) => Some((child, Transform::At { target })),
            _ => Some((child, Transform::Identity)),
        },
        None => None,
    }
}

// ---------------------------------------------------------------------------
// Shells
// ---------------------------------------------------------------------------

/// An enumeration value that means false: `F`, with or without dots around it.
pub open spec fn is_false(e: Seq<char>) -> bool {
    exists|i: int|
        0 <= i < e.len() && #[trigger] e[i] == 'F' && forall|j: int|
            0 <= j < e.len() && j != i ==> e[j] == '.'
}

/// ORIENTED_CLOSED_SHELL and ORIENTED_OPEN_SHELL are (name, *, shell, orientation) wrappers.
pub open spec fn is_oriented_shell(r: RecordView) -> bool {
    r.name == "ORIENTED_CLOSED_SHELL"@ || r.name == "ORIENTED_OPEN_SHELL"@
}

/// What a shell reference resolves to: the shell, and whether it is reversed.
pub open spec fn shell_ref(es: Seq<EntityView>, id: u64) -> ShellRef {
    match record(es, id) {
        Some(r) => if is_oriented_shell(r) && r.reference(2) is Some {
            ShellRef {
                id: r.reference(2)->0,
                reversed: 3 < r.arguments.len() && (r.arguments[3] matches ArgumentView::Enumeration(
                    e,
                ) && is_false(e)),
            }
        } else {
            ShellRef { id, reversed: false }
        },
        None => ShellRef { id, reversed: false },
    }
}

// ---------------------------------------------------------------------------
// Product structure
// ---------------------------------------------------------------------------

/// SHAPE_DEFINITION_REPRESENTATION(shape, representation) gives the product definition behind
/// the shape a representation.
pub open spec fn definition_rep(es: Seq<EntityView>, r: RecordView) -> Option<(u64, u64)> {
    if r.name == "SHAPE_DEFINITION_REPRESENTATION"@ {
        match (follow(es, r.reference(0), 2), r.reference(1)) {
            (Some(definition), Some(rep)) => Some((definition, rep)),
            _ => None,
        }
    } else {
        None
    }
}

/// Whether a product definition has a representation.
pub open spec fn represents(es: Seq<EntityView>, definition: u64, rep: u64) -> bool {
    exists|i: int, k: int|
        0 <= i < es.len() && 0 <= k < es[i].records().len() && definition_rep(
            es,
            #[trigger] es[i].records()[k],
        ) == Some((definition, rep))
}

/// The first of two representations that a product definition has.
pub open spec fn rep_of(
    es: Seq<EntityView>,
    definition: u64,
    first: Option<u64>,
    second: Option<u64>,
) -> Option<u64> {
    if first is Some && represents(es, definition, first->0) {
        first
    } else if second is Some && represents(es, definition, second->0) {
        second
    } else {
        None
    }
}

/// CONTEXT_DEPENDENT_SHAPE_REPRESENTATION(relationship, shape) says which product the
/// relationship places a part in: shape -> NEXT_ASSEMBLY_USAGE_OCCURRENCE -> parent
/// PRODUCT_DEFINITION. That gives the relationship the one of its two representations that
/// the parent product has.
pub open spec fn usage_parent(es: Seq<EntityView>, r: RecordView) -> Option<(u64, u64)> {
    if r.name == "CONTEXT_DEPENDENT_SHAPE_REPRESENTATION"@ {
        match (r.reference(0), r.reference(1)) {
            (Some(relationship), Some(shape)) => {
                let definition = follow(es, follow(es, Some(shape), 2), 3);
                let reps = match entity(es, relationship) {
                    Some(e) => first_record(
                        e.records(),
                        |x: RecordView| x.name == "REPRESENTATION_RELATIONSHIP"@,
                    ),
                    None => None,
                };
                match (definition, reps) {
                    (Some(definition), Some(reps)) => match rep_of(
                        es,
                        definition,
                        reps.reference(2),
                        reps.reference(3),
                    ) {
                        Some(parent) => Some((relationship, parent)),
                        None => None,
                    },
                    _ => None,
                }
            },
            _ => None,
        }
    } else {
        None
    }
}

/// The parents that some records give to relationships. A later record overrides an earlier.
pub open spec fn parents_by(es: Seq<EntityView>, records: Seq<RecordView>) -> Map<u64, u64>
    decreases records.len(),
{
    if records.len() == 0 {
        Map::empty()
    } else {
        match usage_parent(es, records.last()) {
            Some((relationship, parent)) => parents_by(es, records.drop_last()).insert(
                relationship,
                parent,
            ),
            None => parents_by(es, records.drop_last()),
        }
    }
}

/// The records of the first entities, in order.
pub open spec fn records_of(es: Seq<EntityView>, n: int) -> Seq<RecordView>
    decreases n,
{
    if n <= 0 {
        Seq::empty()
    } else {
        records_of(es, n - 1) + es[n - 1].records()
    }
}

/// Maps transformed representation relationships to the representation of the parent assembly.
pub open spec fn parents(es: Seq<EntityView>) -> Map<u64, u64> {
    parents_by(es, records_of(es, es.len() as int))
}

// ---------------------------------------------------------------------------
// The assembly
// ---------------------------------------------------------------------------

/// The entities of a data section, found by their ids.
pub struct Assembly {
    entities: Vec<Entity>,
    positions: HashMap<u64, usize>,
}

impl View for Assembly {
    type V = Seq<EntityView>;

    closed spec fn view(&self) -> Seq<EntityView> {
        entities_view(self.entities@)
    }
}

impl Assembly {
    /// The ids are distinct and lead to the entities.
    pub closed spec fn wf(&self) -> bool {
        &&& distinct_ids(self@)
        &&& forall|i: int| 0 <= i < self@.len() ==> self.positions@.contains_key(#[trigger] self@[i].id())
        &&& forall|id: u64| #[trigger]
            self.positions@.contains_key(id) ==> self.positions@[id] < self@.len()
                && self@[self.positions@[id] as int].id() == id
    }

    /// Takes the entities of a data section. Where an id is defined more than once, the last
    /// definition counts.
    pub fn new(mut entities: Vec<Entity>) -> (r: Assembly)
        ensures
            r.wf(),
            r@ == last_definitions(entities_view(entities@), entities@.len() as int),
    {
        let ghost es = entities_view(entities@);
        let ghost all = last_definitions(es, es.len() as int);
        let mut seen: HashSet<u64> = HashSet::new();
        let mut backwards: Vec<Entity> = Vec::new();
        assert(entities_view(backwards@).reverse() =~= Seq::empty());
        while entities.len() > 0
            invariant
                entities@.len() <= es.len(),
                entities_view(entities@) == es.take(entities@.len() as int),
                forall|id: u64| #[trigger]
                    seen@.contains(id) <==> exists|j: int|
                        entities@.len() <= j < es.len() && #[trigger] es[j].id() == id,
                all == last_definitions(es, entities@.len() as int) + entities_view(
                    backwards@,
                ).reverse(),
                distinct_ids(entities_view(backwards@)),
                forall|i: int|
                    0 <= i < backwards@.len() ==> seen@.contains(
                        #[trigger] entities_view(backwards@)[i].id(),
                    ),
            decreases entities@.len(),
        {
            let ghost n = entities@.len() as int;
            let ghost before = entities_view(backwards@);
            let ghost seen_before = seen@;
            let e = entities.pop().unwrap();
            assert(entities_view(entities@) =~= es.take(n - 1));
            assert(es[n - 1] == es.take(n)[n - 1]);
            assert(e@ == es[n - 1]);
            let id = e.id();
            assert(is_last_definition(es, n - 1) <==> !seen@.contains(id));
            let fresh = seen.insert(id);
            assert forall|x: u64| #[trigger] seen@.contains(x) <==> exists|j: int|
                n - 1 <= j < es.len() && #[trigger] es[j].id() == x by {
                if seen_before.contains(x) {
                    let j = choose|j: int| n <= j < es.len() && #[trigger] es[j].id() == x;
                    assert(es[j].id() == x);
                }
                if x == id {
                    assert(es[n - 1].id() == x);
                }
            }
            if fresh {
                backwards.push(e);
                assert(entities_view(backwards@) =~= before.push(es[n - 1]));
                assert(entities_view(backwards@).reverse() =~= seq![es[n - 1]] + before.reverse());
                assert(last_definitions(es, n) == last_definitions(es, n - 1).push(es[n - 1]));
                assert(all =~= last_definitions(es, n - 1) + entities_view(backwards@).reverse());
            }
        }
        assert(all =~= entities_view(backwards@).reverse());
        let ghost kept = entities_view(backwards@);
        let mut r = Assembly { entities: Vec::new(), positions: HashMap::new() };
        assert(entities_view(r.entities@) =~= Seq::empty());
        assert(distinct_ids(all)) by {
            assert forall|i: int, j: int|
                0 <= i < all.len() && 0 <= j < all.len() && #[trigger] all[i].id()
                    == #[trigger] all[j].id() implies i == j by {
                assert(all[i] == kept[kept.len() - 1 - i]);
                assert(all[j] == kept[kept.len() - 1 - j]);
                assert(kept[kept.len() - 1 - i].id() == kept[kept.len() - 1 - j].id());
            }
        }
        while backwards.len() > 0
            invariant
                distinct_ids(all),
                all == r@ + entities_view(backwards@).reverse(),
                r.wf(),
            decreases backwards@.len(),
        {
            let ghost before = r@;
            let ghost left = entities_view(backwards@);
            let e = backwards.pop().unwrap();
            assert(entities_view(backwards@) =~= left.drop_last());
            assert(left.reverse() =~= seq![e@] + left.drop_last().reverse());
            let id = e.id();
            let position = r.entities.len();
            r.positions.insert(id, position);
            r.entities.push(e);
            assert(r@ =~= before.push(e@));
            assert(all =~= r@ + entities_view(backwards@).reverse());
            assert forall|i: int, j: int|
                0 <= i < r@.len() && 0 <= j < r@.len() && #[trigger] r@[i].id()
                    == #[trigger] r@[j].id() implies i == j by {
                assert(all[i] == r@[i]);
                assert(all[j] == r@[j]);
                assert(all[i].id() == all[j].id());
            }
            assert forall|i: int| 0 <= i < r@.len() implies r.positions@.contains_key(
                #[trigger] r@[i].id(),
            ) by {
                if i < before.len() {
                    assert(r@[i] == before[i]);
                }
            }
            assert forall|x: u64| #[trigger] r.positions@.contains_key(x) implies r.positions@[x]
                < r@.len() && r@[r.positions@[x] as int].id() == x by {
                if x != id {
                    assert(before[r.positions@[x] as int].id() == x);
                }
            }
        }
        assert(entities_view(backwards@).reverse() =~= Seq::empty());
        assert(r@ =~= all);
        r
    }

    /// How many entities there are.
    pub fn count(&self) -> (r: usize)
        ensures
            r == self@.len(),
    {
        self.entities.len()
    }

    /// An entity by its position.
    pub fn nth(&self, index: usize) -> (r: &Entity)
        requires
            index < self@.len(),
        ensures
            r@ == self@[index as int],
    {
        &self.entities[index]
    }

    /// The entity with an id.
    pub(crate) fn entity(&self, id: u64) -> (r: Option<&Entity>)
        requires
            self.wf(),
        ensures
            match r {
                Some(e) => entity(self@, id) == Some(e@),
                None => entity(self@, id) is None,
            },
    {
        match self.positions.get(&id) {
            Some(position) => {
                let e = &self.entities[*position];
                assert(self@[*position as int] == e@);
                Some(e)
            },
            None => None,
        }
    }

    /// The record of the simple entity with an id.
    pub(crate) fn record(&self, id: u64) -> (r: Option<&Record>)
        requires
            self.wf(),
        ensures
            match r {
                Some(r) => record(self@, id) == Some(r@),
                None => record(self@, id) is None,
            },
    {
        match self.entity(id) {
            Some(Entity::Simple { record, .. }) => Some(record),
            _ => None,
        }
    }

    /// The entity that an argument of another entity's record refers to.
    pub(crate) fn follow(&self, id: Option<u64>, index: usize) -> (r: Option<u64>)
        requires
            self.wf(),
        ensures
            r == follow(self@, id, index as int),
    {
        match id {
            Some(id) => match self.record(id) {
                Some(r) => r.reference(index),
                None => None,
            },
            None => None,
        }
    }

    /// The coordinates of a CARTESIAN_POINT or DIRECTION. What follows the third number of its
    /// list is not read, and missing numbers are zero.
    pub fn coordinates(&self, id: u64) -> (r: Option<Coordinates>)
        requires
            self.wf(),
        ensures
            r == coordinates(self@, id),
    {
        let r = match self.record(id) {
            Some(r) => r,
            None => return None,
        };
        if r.arguments.len() < 2 {
            return None;
        }
        assert(r@.arguments[1] == r.arguments@[1]@);
        match &r.arguments[1] {
            Argument::List(items) => match (
                coordinate(items, 0),
                coordinate(items, 1),
                coordinate(items, 2),
            ) {
                (Some(x), Some(y), Some(z)) => Some(Coordinates { x, y, z }),
                _ => None,
            },
            _ => None,
        }
    }

    fn coordinates_at(&self, id: Option<u64>) -> (r: Option<Coordinates>)
        requires
            self.wf(),
        ensures
            r == coordinates_at(self@, id),
    {
        match id {
            Some(id) => self.coordinates(id),
            None => None,
        }
    }

    /// The placement that an AXIS2_PLACEMENT_3D(name, location, axis, ref_direction) describes.
    pub fn placement(&self, id: u64) -> (r: Option<Placement>)
        requires
            self.wf(),
        ensures
            r == placement(self@, id),
    {
        let r = match self.record(id) {
            Some(r) => r,
            None => return None,
        };
        if !r.is_named("AXIS2_PLACEMENT_3D") {
            return None;
        }
        match self.coordinates_at(r.reference(1)) {
            Some(location) => Some(
                Placement {
                    location,
                    axis: self.coordinates_at(r.reference(2)),
                    ref_direction: self.coordinates_at(r.reference(3)),
                },
            ),
            None => None,
        }
    }

    fn placed_at(&self, id: Option<u64>) -> (r: Option<u64>)
        requires
            self.wf(),
        ensures
            r == placed_at(self@, id),
    {
        match id {
            Some(id) => if self.placement(id).is_some() {
                Some(id)
            } else {
                None
            },
            None => None,
        }
    }

    /// The transform from the child's coordinates to the parent's for an
    /// ITEM_DEFINED_TRANSFORMATION, whose first item is in the first representation and whose
    /// second item is in the second.
    pub fn transformation(&self, id: u64, parent_first: bool) -> (r: Transform)
        requires
            self.wf(),
        ensures
            r == transformation(self@, id, parent_first),
    {
        let r = match self.record(id) {
            Some(r) => r,
            None => return Transform::Identity,
        };
        if !r.is_named("ITEM_DEFINED_TRANSFORMATION") {
            return Transform::Identity;
        }
        match (self.placed_at(r.reference(2)), self.placed_at(r.reference(3))) {
            (Some(first), Some(second)) => if parent_first {
                Transform::Between { parent: first, child: second }
            } else {
                Transform::Between { parent: second, child: first }
            },
            _ => Transform::Identity,
        }
    }

    /// MAPPED_ITEM(name, REPRESENTATION_MAP(origin, representation), target) places a copy of a
    /// representation's origin at the target. `singular` holds the placements that have no
    /// inverse.
    pub fn mapped_item(&self, singular: &HashSet<u64>, r: &Record) -> (m: Option<(u64, Transform)>)
        requires
            self.wf(),
        ensures
            m == mapped_item(self@, singular@, r@),
    {
        let map = r.reference(1);
        match self.follow(map, 1) {
            Some(child) => match (
                self.placed_at(r.reference(2)),
                self.placed_at(self.follow(map, 0)),
            ) {
                (Some(target), Some(origin)) => if singular.contains(&origin) {
                    None
                } else {
                    Some((child, Transform::Onto { target, origin }))
                },
                (Some(target), None) => Some((child, Transform::At { target })),
                _ => Some((child, Transform::Identity)),
            },
            None => None,
        }
    }

    /// The placements of the origins of all mapped items: those of which it matters whether
    /// they have an inverse.
    pub fn mapped_origins(&self) -> (r: Vec<u64>)
        requires
            self.wf(),
        ensures
            forall|id: u64| #[trigger]
                r@.contains(id) <==> exists|i: int|
                    0 <= i < self@.len() && origin_of(self@, #[trigger] self@[i]) == Some(id),
    {
        let mut r: Vec<u64> = Vec::new();
        for i in 0..self.entities.len()
            invariant
                self.wf(),
                forall|id: u64| #[trigger]
                    r@.contains(id) <==> exists|k: int|
                        0 <= k < i && origin_of(self@, #[trigger] self@[k]) == Some(id),
        {
            let e = &self.entities[i];
            let ghost before = r@;
            assert(self@[i as int] == e@);
            if let Entity::Simple { record, .. } = e {
                if record.is_named("MAPPED_ITEM") {
                    if let Some(origin) = self.placed_at(self.follow(record.reference(1), 0)) {
                        r.push(origin);
                        assert(r@[before.len() as int] == origin);
                    }
                }
            }
            assert forall|id: u64| #[trigger] r@.contains(id) <==> exists|k: int|
                0 <= k < i + 1 && origin_of(self@, #[trigger] self@[k]) == Some(id) by {
                if r@.contains(id) {
                    let j = choose|j: int| 0 <= j < r@.len() && r@[j] == id;
                    if j < before.len() {
                        assert(before[j] == id);
                        assert(before.contains(id));
                    } else {
                        assert(origin_of(self@, self@[i as int]) == Some(id));
                    }
                }
                if exists|k: int|
                    0 <= k < i + 1 && origin_of(self@, #[trigger] self@[k]) == Some(id) {
                    let k = choose|k: int|
                        0 <= k < i + 1 && origin_of(self@, #[trigger] self@[k]) == Some(id);
                    if k < i {
                        assert(before.contains(id));
                        let j = choose|j: int| 0 <= j < before.len() && before[j] == id;
                        assert(r@[j] == id);
                    } else {
                        assert(r@.last() == id);
                    }
                }
            }
        }
        r
    }

    /// Maps each transformed representation relationship to the representation of the parent
    /// assembly, by following its product structure:
    /// CONTEXT_DEPENDENT_SHAPE_REPRESENTATION -> PRODUCT_DEFINITION_SHAPE ->
    /// NEXT_ASSEMBLY_USAGE_OCCURRENCE -> parent PRODUCT_DEFINITION -> its representations.
    pub fn assembly_parents(&self) -> (r: HashMap<u64, u64>)
        requires
            self.wf(),
        ensures
            r@ == parents(self@),
    {
        let definition_reps = self.definition_reps();
        let mut r: HashMap<u64, u64> = HashMap::new();
        for i in 0..self.entities.len()
            invariant
                self.wf(),
                forall|definition: u64, rep: u64| #[trigger]
                    definition_reps.at(definition).contains(rep) <==> represents(
                        self@,
                        definition,
                        rep,
                    ),
                r@ == parents_by(self@, records_of(self@, i as int)),
        {
            let e = &self.entities[i];
            assert(self@[i as int] == e@);
            let count = e.record_count();
            assert(records_of(self@, i as int) + e@.records().take(0) =~= records_of(
                self@,
                i as int,
            ));
            for k in 0..count
                invariant
                    self.wf(),
                    forall|definition: u64, rep: u64| #[trigger]
                        definition_reps.at(definition).contains(rep) <==> represents(
                            self@,
                            definition,
                            rep,
                        ),
                    count == e@.records().len(),
                    r@ == parents_by(
                        self@,
                        records_of(self@, i as int) + e@.records().take(k as int),
                    ),
            {
                let record = e.record_at(k);
                proof {
                    let done = records_of(self@, i as int) + e@.records().take(k as int);
                    let more = records_of(self@, i as int) + e@.records().take(k + 1);
                    assert(more =~= done.push(record@));
                    assert(more.drop_last() =~= done);
                }
                if let Some((relationship, parent)) = self.usage_parent(record, &definition_reps) {
                    r.insert(relationship, parent);
                }
            }
            assert(e@.records().take(count as int) =~= e@.records());
        }
        r
    }

    /// The representations of each product definition.
    fn definition_reps(&self) -> (r: Lists<u64>)
        requires
            self.wf(),
        ensures
            forall|definition: u64, rep: u64| #[trigger]
                r.at(definition).contains(rep) <==> represents(self@, definition, rep),
    {
        let mut r: Lists<u64> = Lists::new();
        for i in 0..self.entities.len()
            invariant
                self.wf(),
                forall|definition: u64, rep: u64| #[trigger]
                    r.at(definition).contains(rep) <==> represents_within(
                        self@,
                        definition,
                        rep,
                        i as int,
                        0,
                    ),
        {
            let e = &self.entities[i];
            assert(self@[i as int] == e@);
            let count = e.record_count();
            for k in 0..count
                invariant
                    self.wf(),
                    i < self@.len(),
                    self@[i as int] == e@,
                    count == e@.records().len(),
                    forall|definition: u64, rep: u64| #[trigger]
                        r.at(definition).contains(rep) <==> represents_within(
                            self@,
                            definition,
                            rep,
                            i as int,
                            k as int,
                        ),
            {
                let record = e.record_at(k);
                let ghost before = r;
                if record.is_named("SHAPE_DEFINITION_REPRESENTATION") {
                    let definition = self.follow(record.reference(0), 2);
                    if let (Some(definition), Some(rep)) = (definition, record.reference(1)) {
                        r.push(definition, rep);
                        assert forall|d: u64, x: u64| #[trigger] r.at(d).contains(x) <==> (
                        before.at(d).contains(x) || (d == definition && x == rep)) by {
                            lemma_push_contains(before.at(definition), rep, x);
                        }
                    }
                }
                assert forall|d: u64, x: u64| #[trigger] r.at(d).contains(x) <==> represents_within(
                    self@,
                    d,
                    x,
                    i as int,
                    k + 1,
                ) by {
                    lemma_represents_step(self@, d, x, i as int, k as int);
                    assert(before.at(d).contains(x) <==> represents_within(
                        self@,
                        d,
                        x,
                        i as int,
                        k as int,
                    ));
                }
            }
            assert forall|d: u64, x: u64| #[trigger] r.at(d).contains(x) <==> represents_within(
                self@,
                d,
                x,
                i + 1,
                0,
            ) by {
                lemma_represents_row(self@, d, x, i as int);
            }
        }
        assert forall|d: u64, x: u64| #[trigger] r.at(d).contains(x) <==> represents(
            self@,
            d,
            x,
        ) by {
            lemma_represents_all(self@, d, x);
        }
        r
    }

    /// The relationship that a record gives a parent to, and the parent.
    fn usage_parent(&self, r: &Record, definition_reps: &Lists<u64>) -> (p: Option<(u64, u64)>)
        requires
            self.wf(),
            forall|definition: u64, rep: u64| #[trigger]
                definition_reps.at(definition).contains(rep) <==> represents(
                    self@,
                    definition,
                    rep,
                ),
        ensures
            p == usage_parent(self@, r@),
    {
        if !r.is_named("CONTEXT_DEPENDENT_SHAPE_REPRESENTATION") {
            return None;
        }
        let (relationship, shape) = match (r.reference(0), r.reference(1)) {
            (Some(relationship), Some(shape)) => (relationship, shape),
            _ => return None,
        };
        let definition = match self.follow(self.follow(Some(shape), 2), 3) {
            Some(definition) => definition,
            None => return None,
        };
        let reps = match self.entity(relationship) {
            Some(e) => match e.first_named("REPRESENTATION_RELATIONSHIP") {
                Some(reps) => reps,
                None => return None,
            },
            None => return None,
        };
        if let Some(first) = reps.reference(2) {
            if listed(definition_reps, definition, first) {
                return Some((relationship, first));
            }
        }
        if let Some(second) = reps.reference(3) {
            if listed(definition_reps, definition, second) {
                return Some((relationship, second));
            }
        }
        None
    }

    /// Resolves a shell reference to the shell and whether it is reversed, marking both as
    /// accounted for.
    pub(crate) fn shell(&self, id: u64, known_shells: &mut HashSet<u64>) -> (r: ShellRef)
        requires
            self.wf(),
        ensures
            r == shell_ref(self@, id),
            final(known_shells)@ == old(known_shells)@.insert(id).insert(r.id),
    {
        known_shells.insert(id);
        assert(known_shells@ =~= known_shells@.insert(id));
        let r = match self.record(id) {
            Some(r) => r,
            None => return ShellRef { id, reversed: false },
        };
        if !r.is_named("ORIENTED_CLOSED_SHELL") && !r.is_named("ORIENTED_OPEN_SHELL") {
            return ShellRef { id, reversed: false };
        }
        let shell = match r.reference(2) {
            Some(shell) => shell,
            None => return ShellRef { id, reversed: false },
        };
        known_shells.insert(shell);
        let reversed = if r.arguments.len() > 3 {
            assert(r@.arguments[3] == r.arguments@[3]@);
            match &r.arguments[3] {
                Argument::Enumeration(e) => means_false(e.as_str()),
                _ => false,
            }
        } else {
            false
        };
        ShellRef { id: shell, reversed }
    }
}

/// Whether a number's list has a value.
fn listed(lists: &Lists<u64>, key: u64, value: u64) -> (r: bool)
    ensures
        r == lists.at(key).contains(value),
{
    let count = lists.count(key);
    for i in 0..count
        invariant
            count == lists.at(key).len(),
            forall|j: int| 0 <= j < i ==> lists.at(key)[j] != value,
    {
        if *lists.value(key, i) == value {
            return true;
        }
    }
    false
}

/// Whether a product definition has a representation by a record of the first `n` entities or
/// one of the first `m` records of the next.
spec fn represents_within(es: Seq<EntityView>, definition: u64, rep: u64, n: int, m: int) -> bool {
    exists|i: int, k: int|
        0 <= i < es.len() && 0 <= k < es[i].records().len() && (i < n || i == n && k < m)
            && definition_rep(es, #[trigger] es[i].records()[k]) == Some((definition, rep))
}

proof fn lemma_represents_step(es: Seq<EntityView>, d: u64, x: u64, n: int, m: int)
    requires
        0 <= n < es.len(),
        0 <= m < es[n].records().len(),
    ensures
        represents_within(es, d, x, n, m + 1) <==> represents_within(es, d, x, n, m)
            || definition_rep(es, es[n].records()[m]) == Some((d, x)),
{
    if represents_within(es, d, x, n, m + 1) {
        let (i, k) = choose|i: int, k: int|
            0 <= i < es.len() && 0 <= k < es[i].records().len() && (i < n || i == n && k < m + 1)
                && definition_rep(es, #[trigger] es[i].records()[k]) == Some((d, x));
        if !(i == n && k == m) {
            assert(definition_rep(es, es[i].records()[k]) == Some((d, x)));
        }
    }
    if represents_within(es, d, x, n, m) {
        let (i, k) = choose|i: int, k: int|
            0 <= i < es.len() && 0 <= k < es[i].records().len() && (i < n || i == n && k < m)
                && definition_rep(es, #[trigger] es[i].records()[k]) == Some((d, x));
        assert(definition_rep(es, es[i].records()[k]) == Some((d, x)));
    }
    if definition_rep(es, es[n].records()[m]) == Some((d, x)) {
        assert(represents_within(es, d, x, n, m + 1));
    }
}

proof fn lemma_represents_row(es: Seq<EntityView>, d: u64, x: u64, n: int)
    requires
        0 <= n < es.len(),
    ensures
        represents_within(es, d, x, n + 1, 0) <==> represents_within(
            es,
            d,
            x,
            n,
            es[n].records().len() as int,
        ),
{
    let m = es[n].records().len() as int;
    if represents_within(es, d, x, n + 1, 0) {
        let (i, k) = choose|i: int, k: int|
            0 <= i < es.len() && 0 <= k < es[i].records().len() && (i < n + 1 || i == n + 1 && k
                < 0) && definition_rep(es, #[trigger] es[i].records()[k]) == Some((d, x));
        assert(definition_rep(es, es[i].records()[k]) == Some((d, x)));
    }
    if represents_within(es, d, x, n, m) {
        let (i, k) = choose|i: int, k: int|
            0 <= i < es.len() && 0 <= k < es[i].records().len() && (i < n || i == n && k < m)
                && definition_rep(es, #[trigger] es[i].records()[k]) == Some((d, x));
        assert(definition_rep(es, es[i].records()[k]) == Some((d, x)));
    }
}

proof fn lemma_represents_all(es: Seq<EntityView>, d: u64, x: u64)
    ensures
        represents_within(es, d, x, es.len() as int, 0) <==> represents(es, d, x),
{
    if represents(es, d, x) {
        let (i, k) = choose|i: int, k: int|
            0 <= i < es.len() && 0 <= k < es[i].records().len() && definition_rep(
                es,
                #[trigger] es[i].records()[k],
            ) == Some((d, x));
        assert(definition_rep(es, es[i].records()[k]) == Some((d, x)));
    }
}

/// The origin that an entity moves onto a target, if it is a MAPPED_ITEM.
pub open spec fn origin_of(es: Seq<EntityView>, e: EntityView) -> Option<u64> {
    match e {
        EntityView::Simple { record, .. } => if record.name == "MAPPED_ITEM"@ {
            mapped_origin(es, record)
        } else {
            None
        },
        _ => None,
    }
}

/// Whether an enumeration value means false.
fn means_false(e: &str) -> (r: bool)
    ensures
        r == is_false(e@),
{
    let cs = text::chars(e);
    let mut found = false;
    let ghost mut at: int = 0;
    for i in 0..cs.len()
        invariant
            cs@ == e@,
            found ==> 0 <= at < i && cs@[at] == 'F' && forall|j: int|
                0 <= j < i && j != at ==> cs@[j] == '.',
            !found ==> forall|j: int| 0 <= j < i ==> cs@[j] == '.',
    {
        if cs[i] == 'F' && !found {
            found = true;
            proof {
                at = i as int;
            }
        } else if cs[i] != '.' {
            proof {
                if is_false(e@) {
                    let k = choose|k: int|
                        0 <= k < e@.len() && #[trigger] e@[k] == 'F' && forall|j: int|
                            0 <= j < e@.len() && j != k ==> e@[j] == '.';
                    assert(k == i);
                    assert(e@[at] == '.' || at == k || !found);
                }
            }
            return false;
        }
    }
    found
}

/// The number at an index of a list of coordinates: zero past its end.
fn coordinate(items: &Vec<Item>, index: usize) -> (r: Option<Number>)
    ensures
        r == number(items@, index as int),
{
    if index < items.len() {
        match items[index] {
            Item::Real(bits) => Some(Number::Real(bits)),
            Item::Integer(value) => Some(Number::Integer(value)),
            _ => None,
        }
    } else {
        Some(Number::Real(0))
    }
}

} // verus!

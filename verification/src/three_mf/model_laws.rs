//! What holds of the objects and items of a model file.
use vstd::prelude::*;
use vstd::utf8::{decode_utf8, is_ascii_chars};

use super::attributes::{number_values, real_values, whole_values, Fault, Kind, NumberView};
use super::model::{
    closed, model_from, model_value, opened, placement_value, Face, ModelView, ObjectView,
    PositionView, ProgressView,
};
use super::path::{normalize_path, normalized, without_leading_slashes};
use super::reading_laws::{
    are_names, are_numbers, gives, has_name, holds, is_core, is_last, is_written, law_name,
    law_numbers, lemma_real, lemma_whole, says,
};
use super::xml::{is_name, ElementView, EventView};
use crate::laws::numbers::{law_trim, spells};
use crate::numbers::whole;
use crate::text::lowercase;

verus! {

// ---------------------------------------------------------------------------
// Names
// ---------------------------------------------------------------------------

/// The names of the elements that mean something.
pub open spec fn object_name() -> Seq<char> {
    seq!['o', 'b', 'j', 'e', 'c', 't']
}

/// `mesh`.
pub open spec fn mesh_name() -> Seq<char> {
    seq!['m', 'e', 's', 'h']
}

/// `build`.
pub open spec fn build_name() -> Seq<char> {
    seq!['b', 'u', 'i', 'l', 'd']
}

/// `vertex`.
pub open spec fn vertex_name() -> Seq<char> {
    seq!['v', 'e', 'r', 't', 'e', 'x']
}

/// `triangle`.
pub open spec fn triangle_name() -> Seq<char> {
    seq!['t', 'r', 'i', 'a', 'n', 'g', 'l', 'e']
}

/// `component`.
pub open spec fn component_name() -> Seq<char> {
    seq!['c', 'o', 'm', 'p', 'o', 'n', 'e', 'n', 't']
}

/// `item`.
pub open spec fn item_name() -> Seq<char> {
    seq!['i', 't', 'e', 'm']
}

proof fn lemma_names(name: Seq<u8>)
    ensures
        is_name(name, "object"@) <==> is_written(name, object_name()),
        is_name(name, "mesh"@) <==> is_written(name, mesh_name()),
        is_name(name, "build"@) <==> is_written(name, build_name()),
        is_name(name, "vertex"@) <==> is_written(name, vertex_name()),
        is_name(name, "triangle"@) <==> is_written(name, triangle_name()),
        is_name(name, "component"@) <==> is_written(name, component_name()),
        is_name(name, "item"@) <==> is_written(name, item_name()),
{
    reveal_strlit("object");
    reveal_strlit("mesh");
    reveal_strlit("build");
    reveal_strlit("vertex");
    reveal_strlit("triangle");
    reveal_strlit("component");
    reveal_strlit("item");
    assert("object"@ =~= object_name());
    assert("mesh"@ =~= mesh_name());
    assert("build"@ =~= build_name());
    assert("vertex"@ =~= vertex_name());
    assert("triangle"@ =~= triangle_name());
    assert("component"@ =~= component_name());
    assert("item"@ =~= item_name());
    law_name(name, object_name());
    law_name(name, mesh_name());
    law_name(name, build_name());
    law_name(name, vertex_name());
    law_name(name, triangle_name());
    law_name(name, component_name());
    law_name(name, item_name());
}

/// The first letters and the lengths tell the names apart.
proof fn lemma_different(name: Seq<u8>)
    ensures
        is_written(name, object_name()) ==> name.len() == 6 && name[0] == 111,
        is_written(name, mesh_name()) ==> name.len() == 4 && name[0] == 109,
        is_written(name, build_name()) ==> name.len() == 5 && name[0] == 98,
        is_written(name, vertex_name()) ==> name.len() == 6 && name[0] == 118,
        is_written(name, triangle_name()) ==> name.len() == 8 && name[0] == 116,
        is_written(name, component_name()) ==> name.len() == 9 && name[0] == 99,
        is_written(name, item_name()) ==> name.len() == 4 && name[0] == 105,
{
}

// ---------------------------------------------------------------------------
// Meshes
// ---------------------------------------------------------------------------

/// The names of coordinates.
pub open spec fn coordinate_names() -> Seq<Seq<char>> {
    seq![seq!['x'], seq!['y'], seq!['z']]
}

/// The names of corners.
pub open spec fn corner_names() -> Seq<Seq<char>> {
    seq![seq!['v', '1'], seq!['v', '2'], seq!['v', '3']]
}

proof fn lemma_coordinate_names()
    ensures
        are_names(coordinate_names()),
        coordinate_names() == seq!["x"@, "y"@, "z"@],
{
    reveal_strlit("x");
    reveal_strlit("y");
    reveal_strlit("z");
    assert("x"@ =~= seq!['x']);
    assert("y"@ =~= seq!['y']);
    assert("z"@ =~= seq!['z']);
    assert(seq!['x'][0] == 'x' && seq!['y'][0] == 'y' && seq!['z'][0] == 'z');
}

proof fn lemma_corner_names()
    ensures
        are_names(corner_names()),
        corner_names() == seq!["v1"@, "v2"@, "v3"@],
{
    reveal_strlit("v1");
    reveal_strlit("v2");
    reveal_strlit("v3");
    assert("v1"@ =~= seq!['v', '1']);
    assert("v2"@ =~= seq!['v', '2']);
    assert("v3"@ =~= seq!['v', '3']);
    assert(seq!['v', '1'][1] == '1' && seq!['v', '2'][1] == '2' && seq!['v', '3'][1] == '3');
}

/// Whether the only difference is another vertex at the end of the object that is being read.
pub open spec fn adds_vertex(p: ProgressView, q: ProgressView, v: PositionView) -> bool {
    &&& q.model == p.model && q.in_mesh == p.in_mesh && q.in_build == p.in_build
    &&& p.object matches Some((id, object)) && q.object matches Some((same_id, after)) && same_id
        == id && after.vertices == object.vertices.push(v) && after.triangles == object.triangles
        && after.components == object.components
}

/// Whether the only difference is another triangle at the end of the object that is being read.
pub open spec fn adds_triangle(p: ProgressView, q: ProgressView, face: Face) -> bool {
    &&& q.model == p.model && q.in_mesh == p.in_mesh && q.in_build == p.in_build
    &&& p.object matches Some((id, object)) && q.object matches Some((same_id, after)) && same_id
        == id && after.triangles == object.triangles.push(face) && after.vertices == object.vertices
        && after.components == object.components
}

/// A vertex in a mesh has the coordinates that its `x`, `y` and `z` say.
pub proof fn law_vertex(p: ProgressView, e: ElementView, empty: bool)
    requires
        p.in_mesh,
        p.object is Some,
        is_written(e.name, vertex_name()),
    ensures
        match opened(p, e, empty) {
            Ok(q) => exists|v: PositionView| #[trigger]
                adds_vertex(p, q, v) && gives(e, seq!['x'], Kind::Real, NumberView::Real(v.x))
                    && gives(e, seq!['y'], Kind::Real, NumberView::Real(v.y)) && gives(
                    e,
                    seq!['z'],
                    Kind::Real,
                    NumberView::Real(v.z),
                ),
            Err(_) => number_values(e, coordinate_names(), Kind::Real) is Err,
        },
{
    lemma_names(e.name);
    lemma_different(e.name);
    lemma_coordinate_names();
    let names = coordinate_names();
    lemma_real(e, names, 0);
    lemma_real(e, names, 1);
    lemma_real(e, names, 2);
    if let Ok(q) = opened(p, e, empty) {
        let v = real_values(e, names)->Ok_0;
        assert(adds_vertex(p, q, PositionView { x: v[0], y: v[1], z: v[2] }));
    }
}

/// Texts that the `x`, `y` and `z` of a vertex in a mesh say, apart from white space around them,
/// are the coordinates of the vertex that is added, whatever signs they start with.
pub proof fn law_vertex_texts(
    p: ProgressView,
    e: ElementView,
    empty: bool,
    x: Seq<char>,
    y: Seq<char>,
    z: Seq<char>,
)
    requires
        p.in_mesh,
        p.object is Some,
        is_written(e.name, vertex_name()),
        are_numbers(e, coordinate_names(), Kind::Real, e.attributes.len() as int),
        holds(e, seq!['x'], x),
        holds(e, seq!['y'], y),
        holds(e, seq!['z'], z),
    ensures
        opened(p, e, empty) matches Ok(q) && adds_vertex(p, q, PositionView { x, y, z }),
{
    lemma_coordinate_names();
    law_numbers(e, coordinate_names(), Kind::Real);
    lemma_present(e, seq!['x'], x);
    lemma_present(e, seq!['y'], y);
    lemma_present(e, seq!['z'], z);
    assert(coordinate_names()[0] == seq!['x']);
    assert(coordinate_names()[1] == seq!['y']);
    assert(coordinate_names()[2] == seq!['z']);
    assert forall|k: int| 0 <= k < coordinate_names().len() implies exists|i: int|
        0 <= i < e.attributes.len() && has_name(
            #[trigger] e.attributes[i],
            #[trigger] coordinate_names()[k],
        ) by {
        if k == 0 {
        } else if k == 1 {
        } else {
            assert(k == 2);
        }
    }
    law_vertex(p, e, empty);
    let q = opened(p, e, empty)->Ok_0;
    let v = choose|v: PositionView| #[trigger]
        adds_vertex(p, q, v) && gives(e, seq!['x'], Kind::Real, NumberView::Real(v.x)) && gives(
            e,
            seq!['y'],
            Kind::Real,
            NumberView::Real(v.y),
        ) && gives(e, seq!['z'], Kind::Real, NumberView::Real(v.z));
    lemma_same_text(e, seq!['x'], x, v.x);
    lemma_same_text(e, seq!['y'], y, v.y);
    lemma_same_text(e, seq!['z'], z, v.z);
    assert(v == PositionView { x, y, z });
}

proof fn lemma_present(e: ElementView, name: Seq<char>, s: Seq<char>)
    requires
        holds(e, name, s),
    ensures
        exists|i: int| 0 <= i < e.attributes.len() && has_name(#[trigger] e.attributes[i], name),
{
    let i = choose|i: int| #[trigger]
        is_last(e, name, i, e.attributes.len() as int) && says(e.attributes[i]->0.value, s);
    assert(has_name(e.attributes[i], name));
}

/// The last attribute with a name says but one text.
proof fn lemma_same_text(e: ElementView, name: Seq<char>, s: Seq<char>, t: Seq<char>)
    requires
        holds(e, name, s),
        holds(e, name, t) || gives(e, name, Kind::Real, NumberView::Real(t)),
    ensures
        s == t,
{
    let n = e.attributes.len() as int;
    let i = choose|i: int| #[trigger]
        is_last(e, name, i, n) && says(e.attributes[i]->0.value, s);
    let j = choose|j: int| #[trigger]
        is_last(e, name, j, n) && says(e.attributes[j]->0.value, t);
    assert(has_name(e.attributes[i], name) && has_name(e.attributes[j], name));
    assert(i == j);
    let text = decode_utf8(e.attributes[i]->0.value);
    let (a, b) = choose|a: int, b: int| #[trigger] is_core(text, a, b) && s == text.subrange(a, b);
    let (c, d) = choose|c: int, d: int| #[trigger] is_core(text, c, d) && t == text.subrange(c, d);
    law_trim(text, a, b);
    law_trim(text, c, d);
}

/// A triangle in a mesh has the corners that its `v1`, `v2` and `v3` stand for, in this order.
pub proof fn law_triangle(p: ProgressView, e: ElementView, empty: bool)
    requires
        p.in_mesh,
        p.object is Some,
        is_written(e.name, triangle_name()),
    ensures
        match opened(p, e, empty) {
            Ok(q) => exists|face: Face| #[trigger]
                adds_triangle(p, q, face) && gives(
                    e,
                    seq!['v', '1'],
                    Kind::Whole(usize::MAX as u64),
                    NumberView::Whole(face.a as u64),
                ) && gives(
                    e,
                    seq!['v', '2'],
                    Kind::Whole(usize::MAX as u64),
                    NumberView::Whole(face.b as u64),
                ) && gives(
                    e,
                    seq!['v', '3'],
                    Kind::Whole(usize::MAX as u64),
                    NumberView::Whole(face.c as u64),
                ),
            Err(_) => number_values(e, corner_names(), Kind::Whole(usize::MAX as u64)) is Err,
        },
{
    lemma_names(e.name);
    lemma_different(e.name);
    lemma_corner_names();
    let names = corner_names();
    let max = usize::MAX as u64;
    lemma_whole(e, names, max, 0);
    lemma_whole(e, names, max, 1);
    lemma_whole(e, names, max, 2);
    if let Ok(q) = opened(p, e, empty) {
        let v = whole_values(e, names, max)->Ok_0;
        let s0 = choose|s: Seq<char>| #[trigger]
            holds(e, names[0], s) && whole(s, max) == Some(v[0]);
        let s1 = choose|s: Seq<char>| #[trigger]
            holds(e, names[1], s) && whole(s, max) == Some(v[1]);
        let s2 = choose|s: Seq<char>| #[trigger]
            holds(e, names[2], s) && whole(s, max) == Some(v[2]);
        assert(v[0] <= max && v[1] <= max && v[2] <= max);
        assert(adds_triangle(
            p,
            q,
            Face { a: v[0] as usize, b: v[1] as usize, c: v[2] as usize },
        ));
    }
}

/// Vertices, triangles and components outside an object are ignored.
pub proof fn law_outside_object(p: ProgressView, e: ElementView, empty: bool)
    requires
        p.object is None,
        is_written(e.name, vertex_name()) || is_written(e.name, triangle_name()) || is_written(
            e.name,
            component_name(),
        ),
    ensures
        opened(p, e, empty) == Ok::<_, Fault>(p),
{
    lemma_names(e.name);
    lemma_different(e.name);
}

/// Vertices and triangles outside a mesh, and items outside the build, are ignored.
pub proof fn law_out_of_place(p: ProgressView, e: ElementView, empty: bool)
    requires
        (!p.in_mesh && (is_written(e.name, vertex_name()) || is_written(e.name, triangle_name())))
            || (!p.in_build && is_written(e.name, item_name())),
    ensures
        opened(p, e, empty) == Ok::<_, Fault>(p),
{
    lemma_names(e.name);
    lemma_different(e.name);
}

/// Elements with other names are ignored, at their start and at their end.
pub proof fn law_other_elements(p: ProgressView, e: ElementView, empty: bool)
    requires
        !is_written(e.name, object_name()),
        !is_written(e.name, mesh_name()),
        !is_written(e.name, build_name()),
    ensures
        closed(p, e.name) == p,
        !is_written(e.name, vertex_name()) && !is_written(e.name, triangle_name()) && !is_written(
            e.name,
            component_name(),
        ) && !is_written(e.name, item_name()) ==> opened(p, e, empty) == Ok::<_, Fault>(p),
{
    lemma_names(e.name);
}

// ---------------------------------------------------------------------------
// Objects
// ---------------------------------------------------------------------------

/// Whether the only difference is an object of a model file, which replaces one with the same id.
/// A new id comes last.
pub open spec fn adds_object(
    before: ModelView,
    after: ModelView,
    id: u64,
    object: ObjectView,
) -> bool {
    &&& after.objects == before.objects.insert(id, object)
    &&& before.objects.contains_key(id) ==> after.ids == before.ids
    &&& !before.objects.contains_key(id) ==> after.ids == before.ids.push(id)
    &&& after.build == before.build
}

/// Whether an object has nothing in it.
pub open spec fn is_bare(object: ObjectView) -> bool {
    object.vertices.len() == 0 && object.triangles.len() == 0 && object.components.len() == 0
}

/// `id`.
pub open spec fn id_name() -> Seq<char> {
    seq!['i', 'd']
}

/// The start of an object begins one with the id that it says and with nothing in it, in place of
/// the one that was being read. An empty element is such an object, and does not touch the one
/// that is being read.
pub proof fn law_object(p: ProgressView, e: ElementView, empty: bool)
    requires
        is_written(e.name, object_name()),
    ensures
        match opened(p, e, empty) {
            Ok(q) => q.in_mesh == p.in_mesh && q.in_build == p.in_build && exists|id: u64|
                #[trigger] gives(
                    e,
                    id_name(),
                    Kind::Whole(u64::MAX),
                    NumberView::Whole(id),
                ) && if empty {
                    &&& q.object == p.object
                    &&& exists|object: ObjectView| #[trigger]
                        adds_object(p.model, q.model, id, object) && is_bare(object)
                } else {
                    &&& q.model == p.model
                    &&& q.object matches Some((new_id, object)) && new_id == id && is_bare(object)
                },
            Err(_) => number_values(e, seq![id_name()], Kind::Whole(u64::MAX)) is Err,
        },
{
    lemma_names(e.name);
    reveal_strlit("id");
    let name = id_name();
    assert("id"@ =~= name);
    let names = seq![name];
    assert(are_names(names));
    lemma_whole(e, names, u64::MAX, 0);
    if let Ok(q) = opened(p, e, empty) {
        let id = whole_values(e, names, u64::MAX)->Ok_0[0];
        assert(gives(e, names[0], Kind::Whole(u64::MAX), NumberView::Whole(id)));
        if empty {
            assert(adds_object(p.model, q.model, id, ObjectView::empty()));
        }
    }
}

/// The end of an object puts what was read of it into the model file.
pub proof fn law_object_ends(p: ProgressView, name: Seq<u8>)
    requires
        is_written(name, object_name()),
    ensures
        closed(p, name).in_mesh == p.in_mesh,
        closed(p, name).in_build == p.in_build,
        closed(p, name).object is None,
        match p.object {
            Some((id, object)) => adds_object(p.model, closed(p, name).model, id, object),
            None => closed(p, name).model == p.model,
        },
{
    lemma_names(name);
}

/// A mesh is being read from its start to its end, and so is the build. Neither touches what was
/// read.
pub proof fn law_flags(p: ProgressView, e: ElementView, empty: bool)
    requires
        is_written(e.name, mesh_name()) || is_written(e.name, build_name()),
    ensures
        opened(p, e, empty) matches Ok(q) && q.model == p.model && q.object == p.object
            && q.in_mesh == (if is_written(e.name, mesh_name()) {
            !empty
        } else {
            p.in_mesh
        }) && q.in_build == (if is_written(e.name, build_name()) {
            !empty
        } else {
            p.in_build
        }),
        ({
            let q = closed(p, e.name);
            &&& q.model == p.model && q.object == p.object
            &&& q.in_mesh == (p.in_mesh && !is_written(e.name, mesh_name()))
            &&& q.in_build == (p.in_build && !is_written(e.name, build_name()))
        }),
{
    lemma_names(e.name);
    lemma_different(e.name);
}

/// A component is placed by its element, behind the components that the object already has.
pub proof fn law_component(p: ProgressView, e: ElementView, empty: bool)
    requires
        p.object is Some,
        is_written(e.name, component_name()),
    ensures
        match (opened(p, e, empty), placement_value(e)) {
            (Ok(q), Ok(component)) => {
                let (id, object) = p.object->0;
                &&& q.model == p.model && q.in_mesh == p.in_mesh && q.in_build == p.in_build
                &&& q.object matches Some((same_id, after)) && same_id == id && after.components
                    == object.components.push(component) && after.vertices == object.vertices
                    && after.triangles == object.triangles
            },
            (Err(fault), Err(same)) => fault == same,
            _ => false,
        },
{
    lemma_names(e.name);
    lemma_different(e.name);
}

/// An item in the build is placed by its element, behind the items that there already are.
pub proof fn law_item(p: ProgressView, e: ElementView, empty: bool)
    requires
        p.in_build,
        is_written(e.name, item_name()),
    ensures
        match (opened(p, e, empty), placement_value(e)) {
            (Ok(q), Ok(item)) => {
                &&& q.object == p.object && q.in_mesh == p.in_mesh && q.in_build == p.in_build
                &&& q.model.objects == p.model.objects && q.model.ids == p.model.ids
                &&& q.model.build == p.model.build.push(item)
            },
            (Err(fault), Err(same)) => fault == same,
            _ => false,
        },
{
    lemma_names(e.name);
    lemma_different(e.name);
}

// ---------------------------------------------------------------------------
// Files
// ---------------------------------------------------------------------------

/// Whether an event leads from one state to another and is not the last.
pub open spec fn leads(event: Option<EventView>, p: ProgressView, q: ProgressView) -> bool {
    match event {
        Some(EventView::Open { element, empty }) => opened(p, element, empty) == Ok::<_, Fault>(q),
        Some(EventView::Close { name }) => q == closed(p, name),
        Some(EventView::Other) => q == p,
        _ => false,
    }
}

/// Whether nothing was read.
pub open spec fn is_start(p: ProgressView) -> bool {
    &&& p.model.objects == Map::<u64, ObjectView>::empty()
    &&& p.model.ids.len() == 0
    &&& p.model.build.len() == 0
    &&& p.object is None
    &&& !p.in_mesh
    &&& !p.in_build
}

/// A model file holds what its events up to the end lead to, one after the other, starting from
/// nothing.
pub proof fn law_model(events: Seq<Option<EventView>>, states: Seq<ProgressView>)
    requires
        0 < states.len() <= events.len(),
        is_start(states[0]),
        forall|i: int|
            0 <= i < states.len() - 1 ==> leads(
                #[trigger] events[i],
                states[i],
                states[i + 1],
            ),
    ensures
        events[states.len() - 1] == Some(EventView::End) ==> model_value(events) == Ok::<_, Fault>(
            states.last().model,
        ),
        events[states.len() - 1] is None ==> model_value(events) == Err::<ModelView, _>(Fault::Xml),
        events[states.len() - 1] matches Some(EventView::Open { element, empty }) ==> (opened(
            states.last(),
            element,
            empty,
        ) matches Err(fault) ==> model_value(events) == Err::<ModelView, _>(fault)),
{
    let start = ProgressView::start();
    assert(states[0].model.ids =~= start.model.ids);
    assert(states[0].model.build =~= start.model.build);
    assert(states[0] =~= start);
    assert(events.skip(0) =~= events);
    lemma_model(events, states, 0);
}

proof fn lemma_model(events: Seq<Option<EventView>>, states: Seq<ProgressView>, i: int)
    requires
        0 <= i < states.len() <= events.len(),
        forall|i: int|
            0 <= i < states.len() - 1 ==> leads(
                #[trigger] events[i],
                states[i],
                states[i + 1],
            ),
    ensures
        model_from(events.skip(i), states[i]) == model_from(
            events.skip(states.len() - 1),
            states.last(),
        ),
        events.skip(states.len() - 1)[0] == events[states.len() - 1],
    decreases states.len() - i,
{
    if i < states.len() - 1 {
        assert(events.skip(i)[0] == events[i]);
        assert(leads(events[i], states[i], states[i + 1]));
        assert(events.skip(i).skip(1) =~= events.skip(i + 1));
        lemma_model(events, states, i + 1);
    }
}

// ---------------------------------------------------------------------------
// Paths
// ---------------------------------------------------------------------------

/// A path is compared in lower case and without the slashes at its start, and nothing else is
/// taken from it.
pub proof fn law_path(path: Seq<char>, slashes: int)
    requires
        0 <= slashes <= path.len(),
        forall|i: int| 0 <= i < slashes ==> #[trigger] path[i] == '/',
        slashes < path.len() ==> path[slashes] != '/',
    ensures
        normalized(path) == lowercase(path.skip(slashes)),
    decreases slashes,
{
    if slashes > 0 {
        assert(path[0] == '/');
        let rest = path.skip(1);
        assert forall|i: int| 0 <= i < slashes - 1 implies #[trigger] rest[i] == '/' by {
            assert(rest[i] == path[i + 1]);
        }
        law_path(rest, slashes - 1);
        assert(rest.skip(slashes - 1) =~= path.skip(slashes));
    } else {
        assert(path.skip(0) =~= path);
    }
}

/// A path of ASCII characters spells its normal form, without the slashes at its start. No letter
/// of the normal form is in upper case.
pub proof fn law_ascii_path(path: &str, r: String, slashes: int)
    requires
        call_ensures(normalize_path, (path,), r),
        is_ascii_chars(path@),
        0 <= slashes <= path@.len(),
        forall|i: int| 0 <= i < slashes ==> #[trigger] path@[i] == '/',
        slashes < path@.len() ==> path@[slashes] != '/',
    ensures
        spells(path@.skip(slashes), r@),
        forall|i: int| 0 <= i < r@.len() ==> !('A' <= #[trigger] r@[i] <= 'Z'),
{
    lemma_slashes(path@, slashes);
    let rest = path@.skip(slashes);
    assert forall|i: int| 0 <= i < r@.len() implies r@[i] == crate::text::ascii_lower(rest[i]) by {
    }
}

proof fn lemma_slashes(path: Seq<char>, slashes: int)
    requires
        0 <= slashes <= path.len(),
        forall|i: int| 0 <= i < slashes ==> #[trigger] path[i] == '/',
        slashes < path.len() ==> path[slashes] != '/',
    ensures
        without_leading_slashes(path) == path.skip(slashes),
    decreases slashes,
{
    if slashes > 0 {
        assert(path[0] == '/');
        let rest = path.skip(1);
        assert forall|i: int| 0 <= i < slashes - 1 implies #[trigger] rest[i] == '/' by {
            assert(rest[i] == path[i + 1]);
        }
        lemma_slashes(rest, slashes - 1);
        assert(rest.skip(slashes - 1) =~= path.skip(slashes));
    } else {
        assert(path.skip(0) =~= path);
    }
}

} // verus!

//! What holds of the mesh of a STEP file.
use ruststep::ast::Exchange;
use vstd::prelude::*;

use super::assembly::{distinct_ids, last_definitions, origin_of, placement, Assembly, Placement};
use super::assembly_laws::{
    has_record, law_entity, law_last_definitions, leads_to_placement, refers, stays,
};
use super::entity::{EntityView, RecordView};
use super::load::{
    comes_of, is_mapped_origin, is_singular_set, is_step_load, is_step_result, meshes_shells,
};
use super::polygons::{drawn_shapes, polygon_pieces, Corner, Polygon, PolygonFace, PolygonView};
use super::syntax::{is_parsable, is_parse_error, parsed_sections, sections, StepError};
use super::walk::{instances_view, is_instances, Instance};
use crate::mesh::laws::{has_hull, is_calculated, is_finite_bits, law_built, shows};
use crate::mesh::triangles::{is_mesh_of, Mesh, MeshView, Normal, Piece, Triangle};
use crate::text::utf8_lossy;

verus! {

// ---------------------------------------------------------------------------
// Triangles
// ---------------------------------------------------------------------------

/// How many triangles the shells of the first instances have.
pub open spec fn face_total(shapes: Seq<Option<Polygon>>, n: int) -> int
    decreases n,
{
    if n <= 0 {
        0
    } else {
        face_total(shapes, n - 1) + match shapes[n - 1] {
            Some(p) => p.faces@.len() as int,
            None => 0,
        }
    }
}

/// Whether a corner of a shell has a normal that is finite.
pub open spec fn has_normal(p: Polygon, corner: Corner) -> bool {
    &&& corner.normal matches Some(i) && i < p.normals@.len()
    &&& {
        let n = p.normals@[corner.normal->0 as int];
        is_finite_bits(n.x) && is_finite_bits(n.y) && is_finite_bits(n.z)
    }
}

/// Whether a mesh shows a corner of a shell: the position and, if all normals of the triangle are
/// to be had, the normal.
pub open spec fn shows_corner(
    m: MeshView,
    n: int,
    p: Polygon,
    corner: Corner,
    with_normals: bool,
) -> bool {
    &&& 0 <= n < m.vertices.len() && n < m.normals.len()
    &&& m.vertices[n].position == p.positions@[corner.position as int]
    &&& with_normals ==> m.normals[n].normal == p.normals@[corner.normal->0 as int]
}

/// Whether a mesh shows a triangle of a shell from a vertex on. The last two corners change places
/// if the shell is mirrored or reversed, but not if it is both. A triangle without a finite normal
/// at every corner has a calculated one instead. The model had normals if the first triangle has.
pub open spec fn shows_face<F: Fn(Triangle) -> Normal>(
    normal: F,
    m: MeshView,
    n: int,
    p: Polygon,
    reversed: bool,
    face: PolygonFace,
) -> bool {
    let turned = (p.mirrored && !reversed) || (reversed && !p.mirrored);
    let with_normals = has_normal(p, face.a) && has_normal(p, face.b) && has_normal(p, face.c);
    &&& n == 0 ==> (m.model_had_normals <==> with_normals)
    &&& shows_corner(m, n, p, face.a, with_normals)
    &&& shows_corner(
        m,
        n + 1,
        p,
        if turned {
            face.c
        } else {
            face.b
        },
        with_normals,
    )
    &&& shows_corner(
        m,
        n + 2,
        p,
        if turned {
            face.b
        } else {
            face.c
        },
        with_normals,
    )
    &&& !with_normals ==> is_calculated(
        normal,
        m,
        n,
        Triangle {
            a: m.vertices[n].position,
            b: m.vertices[n + 1].position,
            c: m.vertices[n + 2].position,
        },
    )
}

/// Whether a mesh shows the shell of every instance that has one, triangle by triangle and in
/// order, each turned as the instance says, and nothing else.
pub open spec fn shows_shells<F: Fn(Triangle) -> Normal>(
    normal: F,
    instances: Seq<Instance>,
    shapes: Seq<Option<Polygon>>,
    m: MeshView,
) -> bool {
    &&& m.vertices.len() == 3 * face_total(shapes, instances.len() as int)
    &&& m.normals.len() == m.vertices.len()
    &&& forall|i: int, j: int|
        #![trigger shapes[i]->0.faces@[j]]
        0 <= i < instances.len() && shapes[i] is Some && 0 <= j < shapes[i]->0.faces@.len()
            ==> shows_face(
            normal,
            m,
            3 * (face_total(shapes, i) + j),
            shapes[i]->0,
            instances[i].shell.reversed,
            shapes[i]->0.faces@[j],
        )
}

/// The pieces of the shells of the first instances.
spec fn drawn_pieces(instances: Seq<Instance>, shapes: Seq<Option<Polygon>>, n: int) -> Seq<Piece> {
    let drawn = drawn_shapes(instances, shapes, n);
    polygon_pieces(drawn, drawn.len() as int)
}

proof fn lemma_pieces_grow(polygons: Seq<PolygonView>, last: PolygonView, n: int)
    requires
        0 <= n <= polygons.len(),
    ensures
        polygon_pieces(polygons.push(last), n) == polygon_pieces(polygons, n),
    decreases n,
{
    if n > 0 {
        lemma_pieces_grow(polygons, last, n - 1);
    }
}

proof fn lemma_drawn(
    instances: Seq<Instance>,
    shapes: Seq<Option<Polygon>>,
    n: int,
    i: int,
    j: int,
)
    requires
        0 <= n <= instances.len() == shapes.len(),
    ensures
        0 <= face_total(shapes, n),
        drawn_pieces(instances, shapes, n).len() == face_total(shapes, n),
        0 <= i < n && shapes[i] is Some && 0 <= j < shapes[i]->0.faces@.len() ==> {
            let at = face_total(shapes, i) + j;
            let p = shapes[i]->0;
            &&& 0 <= at < face_total(shapes, n)
            &&& drawn_pieces(instances, shapes, n)[at] == (PolygonView {
                reversed: instances[i].shell.reversed,
                ..p@
            }).piece(p.faces@[j])
        },
    decreases n,
{
    if n > 0 {
        lemma_drawn(instances, shapes, n - 1, i, j);
        let before = drawn_shapes(instances, shapes, n - 1);
        if let Some(p) = shapes[n - 1] {
            let q = PolygonView { reversed: instances[n - 1].shell.reversed, ..p@ };
            lemma_pieces_grow(before, q, before.len() as int);
            assert(before.push(q)[before.len() as int] == q);
            assert(drawn_pieces(instances, shapes, n) == drawn_pieces(instances, shapes, n - 1)
                + q.pieces());
            assert(q.pieces().len() == p.faces@.len());
        }
    }
}

pub(super) proof fn lemma_shows_face<F: Fn(Triangle) -> Normal>(
    normal: F,
    pieces: Seq<Piece>,
    m: MeshView,
    at: int,
    p: Polygon,
    reversed: bool,
    face: PolygonFace,
)
    requires
        is_mesh_of(normal, pieces, m),
        0 <= at < pieces.len(),
        pieces[at] == (PolygonView { reversed, ..p@ }).piece(face),
    ensures
        shows_face(normal, m, 3 * at, p, reversed, face),
{
    law_built(normal, pieces, m, at);
    let q = PolygonView { reversed, ..p@ };
    let t = pieces[at].triangle;
    assert(shows(m, 3 * at, t));
    assert(t == Triangle {
        a: m.vertices[3 * at].position,
        b: m.vertices[3 * at + 1].position,
        c: m.vertices[3 * at + 2].position,
    });
    let with_normals = has_normal(p, face.a) && has_normal(p, face.b) && has_normal(p, face.c);
    assert(with_normals <==> pieces[at].normals is Some);
}

/// Whether the placements without an inverse are those that a function says have none, among the
/// origins of mapped items.
pub open spec fn are_singular<S: Fn(Placement) -> bool>(
    is_singular: S,
    es: Seq<EntityView>,
    singular: Set<u64>,
) -> bool {
    forall|item: u64, r: RecordView, map: u64, m: RecordView, origin: u64|
        #![trigger has_record(es, item, r), has_record(es, map, m), refers(m, 0, origin)]
        has_record(es, item, r) && r.name == "MAPPED_ITEM"@ && refers(r, 1, map) && has_record(
            es,
            map,
            m,
        ) && leads_to_placement(es, m, 0, origin) ==> call_ensures(
            is_singular,
            (placement(es, origin)->0,),
            singular.contains(origin),
        )
}

proof fn lemma_distinct(es: Seq<EntityView>)
    ensures
        distinct_ids(last_definitions(es, es.len() as int)),
{
    let ds = last_definitions(es, es.len() as int);
    let at = law_last_definitions(es, es.len() as int);
    assert forall|i: int, j: int|
        0 <= i < ds.len() && 0 <= j < ds.len() && #[trigger] ds[i].id() == #[trigger] ds[j].id()
        implies i == j by {
        assert(stays(es, at[i]) && stays(es, at[j]));
        if i < j {
            assert(at[i] < at[j]);
            assert(es[at[j]].id() != es[at[i]].id());
        } else if j < i {
            assert(at[j] < at[i]);
            assert(es[at[i]].id() != es[at[j]].id());
        }
    }
}

proof fn lemma_singular<S: Fn(Placement) -> bool>(
    is_singular: S,
    es: Seq<EntityView>,
    singular: Set<u64>,
)
    requires
        distinct_ids(es),
        is_singular_set(is_singular, es, singular),
    ensures
        are_singular(is_singular, es, singular),
{
    assert forall|item: u64, r: RecordView, map: u64, m: RecordView, origin: u64|
        #![trigger has_record(es, item, r), has_record(es, map, m), refers(m, 0, origin)]
        has_record(es, item, r) && r.name == "MAPPED_ITEM"@ && refers(r, 1, map) && has_record(
            es,
            map,
            m,
        ) && leads_to_placement(es, m, 0, origin) implies call_ensures(
        is_singular,
        (placement(es, origin)->0,),
        singular.contains(origin),
    ) by {
        let e = EntityView::Simple { id: item, record: r };
        let i = choose|i: int| 0 <= i < es.len() && es[i] == e;
        law_entity(es, map, EntityView::Simple { id: map, record: m }, m);
        assert(origin_of(es, es[i]) == Some(origin));
        assert(is_mapped_origin(es, origin));
    }
}

/// The mesh of a STEP file shows the shells that its first data section draws, as the assembly
/// places them. The last definition of an id counts.
pub proof fn law_step<
    S: Fn(Placement) -> bool,
    K: Fn(&Exchange, &Assembly, &Vec<Instance>) -> Vec<Option<Polygon>>,
    F: Fn(Triangle) -> Normal,
>(is_singular: S, tessellate: K, normal: F, bytes: Seq<u8>, mesh: Mesh)
    requires
        is_step_load(is_singular, tessellate, normal, bytes, Ok(mesh)),
        meshes_shells(tessellate),
    ensures
        parsed_sections(utf8_lossy(bytes)) matches Some(data) && data.len() > 0 && exists|
            exchange: Exchange,
            assembly: Assembly,
            singular: Set<u64>,
            instances: Vec<Instance>,
            shapes: Vec<Option<Polygon>>,
        |
            {
                &&& sections(exchange) == data
                &&& assembly@ == last_definitions(data[0], data[0].len() as int)
                &&& are_singular(is_singular, assembly@, singular)
                &&& #[trigger] is_instances(assembly@, singular, instances_view(instances@))
                &&& #[trigger] call_ensures(
                    tessellate,
                    (&exchange, &assembly, &instances),
                    shapes,
                )
                &&& shows_shells(normal, instances@, shapes@, mesh@)
            },
        mesh.vertices@.len() > 0,
        mesh.indices@.len() == 0,
        has_hull(mesh@, mesh.vertices@[0].position),
{
    let data = parsed_sections(utf8_lossy(bytes))->0;
    let (exchange, assembly, singular, instances, shapes) = choose|
        exchange: Exchange,
        assembly: Assembly,
        singular: Set<u64>,
        instances: Vec<Instance>,
        shapes: Vec<Option<Polygon>>,
    |
        sections(exchange) == data && #[trigger] comes_of(
            is_singular,
            tessellate,
            normal,
            exchange,
            assembly,
            singular,
            instances,
            shapes,
            Ok::<Mesh, StepError>(mesh),
        );
    let n = instances@.len() as int;
    let pieces = drawn_pieces(instances@, shapes@, n);
    assert(is_mesh_of(normal, pieces, mesh@));
    assert(call_ensures(tessellate, (&exchange, &assembly, &instances), shapes));
    assert(shapes@.len() == instances@.len());
    lemma_drawn(instances@, shapes@, n, 0, 0);
    law_built(normal, pieces, mesh@, 0);
    assert(pieces.len() > 0);
    assert forall|i: int, j: int|
        #![trigger shapes@[i]->0.faces@[j]]
        0 <= i < instances@.len() && shapes@[i] is Some && 0 <= j
            < shapes@[i]->0.faces@.len() implies shows_face(
        normal,
        mesh@,
        3 * (face_total(shapes@, i) + j),
        shapes@[i]->0,
        instances@[i].shell.reversed,
        shapes@[i]->0.faces@[j],
    ) by {
        lemma_drawn(instances@, shapes@, n, i, j);
        lemma_shows_face(
            normal,
            pieces,
            mesh@,
            face_total(shapes@, i) + j,
            shapes@[i]->0,
            instances@[i].shell.reversed,
            shapes@[i]->0.faces@[j],
        );
    }
    assert(shows_shells(normal, instances@, shapes@, mesh@));
    assert(is_instances(assembly@, singular, instances_view(instances@)));
    lemma_distinct(data[0]);
    lemma_singular(is_singular, assembly@, singular);
}

/// A STEP file has no triangles if none of the shells that it draws has any.
pub proof fn law_step_without_triangles<
    S: Fn(Placement) -> bool,
    K: Fn(&Exchange, &Assembly, &Vec<Instance>) -> Vec<Option<Polygon>>,
    F: Fn(Triangle) -> Normal,
>(is_singular: S, tessellate: K, normal: F, bytes: Seq<u8>)
    requires
        is_step_load(is_singular, tessellate, normal, bytes, Err(StepError::NoTriangles)),
        meshes_shells(tessellate),
    ensures
        parsed_sections(utf8_lossy(bytes)) matches Some(data) && data.len() > 0 && exists|
            exchange: Exchange,
            assembly: Assembly,
            singular: Set<u64>,
            instances: Vec<Instance>,
            shapes: Vec<Option<Polygon>>,
        |
            {
                &&& sections(exchange) == data
                &&& assembly@ == last_definitions(data[0], data[0].len() as int)
                &&& are_singular(is_singular, assembly@, singular)
                &&& #[trigger] is_instances(assembly@, singular, instances_view(instances@))
                &&& #[trigger] call_ensures(
                    tessellate,
                    (&exchange, &assembly, &instances),
                    shapes,
                )
                &&& face_total(shapes@, instances@.len() as int) == 0
            },
{
    let data = parsed_sections(utf8_lossy(bytes))->0;
    let (exchange, assembly, singular, instances, shapes) = choose|
        exchange: Exchange,
        assembly: Assembly,
        singular: Set<u64>,
        instances: Vec<Instance>,
        shapes: Vec<Option<Polygon>>,
    |
        sections(exchange) == data && #[trigger] comes_of(
            is_singular,
            tessellate,
            normal,
            exchange,
            assembly,
            singular,
            instances,
            shapes,
            Err::<Mesh, StepError>(StepError::NoTriangles),
        );
    assert(call_ensures(tessellate, (&exchange, &assembly, &instances), shapes));
    lemma_drawn(instances@, shapes@, instances@.len() as int, 0, 0);
    assert(is_instances(assembly@, singular, instances_view(instances@)));
    lemma_distinct(data[0]);
    lemma_singular(is_singular, assembly@, singular);
}

/// A STEP file gives an error if the parser cannot take it, if it cannot be parsed, if it has no
/// data section, or if no shell that it draws has triangles, and no other.
pub proof fn law_step_refused<
    S: Fn(Placement) -> bool,
    K: Fn(&Exchange, &Assembly, &Vec<Instance>) -> Vec<Option<Polygon>>,
    F: Fn(Triangle) -> Normal,
>(is_singular: S, tessellate: K, normal: F, bytes: Seq<u8>, r: Result<Mesh, StepError>)
    requires
        is_step_load(is_singular, tessellate, normal, bytes, r),
    ensures
        ({
            let text = utf8_lossy(bytes);
            let parsed = parsed_sections(text);
            &&& (r matches Err(StepError::Unsupported)) <==> !is_parsable(text)
            &&& (r matches Err(StepError::Parse { .. })) <==> is_parsable(text) && parsed is None
            &&& r matches Err(StepError::Parse { rests, report }) ==> is_parse_error(
                text,
                rests@,
                report,
            )
            &&& (r matches Err(StepError::NoData)) <==> is_parsable(text) && parsed is Some
                && parsed->0.len() == 0
            &&& (r is Ok || r matches Err(StepError::NoTriangles)) <==> is_parsable(text)
                && parsed is Some && parsed->0.len() > 0
        }),
{
    let text = utf8_lossy(bytes);
    if is_parsable(text) {
        if let Some(data) = parsed_sections(text) {
            if data.len() > 0 {
                assert(is_step_result(is_singular, tessellate, normal, data, r));
                let (exchange, assembly, singular, instances, shapes) = choose|
                    exchange: Exchange,
                    assembly: Assembly,
                    singular: Set<u64>,
                    instances: Vec<Instance>,
                    shapes: Vec<Option<Polygon>>,
                |
                    sections(exchange) == data && #[trigger] comes_of(
                        is_singular,
                        tessellate,
                        normal,
                        exchange,
                        assembly,
                        singular,
                        instances,
                        shapes,
                        r,
                    );
            }
        }
    }
}

} // verus!

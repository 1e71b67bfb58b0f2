//! What holds of every mesh, in terms of the triangles that it is made from.
use vstd::prelude::*;

use super::bounds::{
    bounds_from, in_range, law_extents, law_range, stretched_over, BoundingBox, Point, Range,
};
use super::obj::{
    is_obj_load, is_obj_result, obj_meshes, obj_meshes_view, obj_pieces, point_at, ObjError,
    ObjMesh, ObjMeshView,
};
use super::obj_text::references_fit;
use super::single::Single;
use super::stl::{facet_pieces, is_stl_load, is_stl_mesh, needs_normal, stl_facets, Facet, StlError};
use super::triangles::{
    all_fit, finds_normals, fit, is_mesh_of, law_three_corners, law_three_normals, positions,
    triangles_of, Mesh, MeshView, Normal, Normals, Piece, Triangle,
};
use crate::text::utf8_lossy;

verus! {

// ---------------------------------------------------------------------------
// Numbers
// ---------------------------------------------------------------------------

/// Numbers are ordered as their bit patterns say: those without a sign bit by the bits, those with
/// one the other way round, and every one with a sign bit before every one without, but for the
/// two zeros, which are equal. What lies above infinity is not a number, and is neither smaller
/// nor larger than anything.
pub proof fn law_bits(a: Single, b: Single)
    ensures
        a.bits <= 0x7f80_0000 && b.bits <= 0x7f80_0000 ==> (a.spec_lt(b) <==> a.bits < b.bits),
        0x8000_0000 <= a.bits <= 0xff80_0000 && 0x8000_0000 <= b.bits <= 0xff80_0000 ==> (
        a.spec_lt(b) <==> a.bits > b.bits),
        0x8000_0000 <= a.bits <= 0xff80_0000 && b.bits <= 0x7f80_0000 ==> !b.spec_lt(a) && (
        a.spec_lt(b) <==> !(a.bits == 0x8000_0000 && b.bits == 0)),
        is_nan_bits(a) || is_nan_bits(b) ==> !a.spec_lt(b) && !b.spec_lt(a),
        a.spec_is_nan() <==> is_nan_bits(a),
        a.spec_is_zero() <==> is_zero_bits(a),
        a.spec_is_finite() <==> a.bits < 0x7f80_0000 || 0x8000_0000 <= a.bits < 0xff80_0000,
        a.spec_le(b) <==> !is_nan_bits(a) && !is_nan_bits(b) && !b.spec_lt(a),
{
}

/// Whether a bit pattern lies above that of infinity.
pub open spec fn is_nan_bits(v: Single) -> bool {
    0x7f80_0000 < v.bits < 0x8000_0000 || 0xff80_0000 < v.bits
}

/// Whether a bit pattern is that of zero, with or without a sign.
pub open spec fn is_zero_bits(v: Single) -> bool {
    v.bits == 0 || v.bits == 0x8000_0000
}

// ---------------------------------------------------------------------------
// Boxes
// ---------------------------------------------------------------------------

/// Whether a range runs from the smallest to the largest of a number and others. What is not a
/// number does not count, and a range that starts at none of them stays there.
pub open spec fn is_hull(min: Single, max: Single, start: Single, vs: Seq<Single>) -> bool {
    if is_nan_bits(start) {
        min == start && max == start
    } else {
        &&& !start.spec_lt(min) && !max.spec_lt(start)
        &&& forall|i: int|
            0 <= i < vs.len() && !is_nan_bits(vs[i]) ==> !(#[trigger] vs[i]).spec_lt(min)
                && !max.spec_lt(vs[i])
        &&& min == start || (exists|i: int| 0 <= i < vs.len() && #[trigger] vs[i] == min)
        &&& max == start || (exists|i: int| 0 <= i < vs.len() && #[trigger] vs[i] == max)
        &&& !is_nan_bits(min) && !is_nan_bits(max)
    }
}

/// A range that is stretched over numbers runs from the smallest to the largest of them.
pub proof fn law_hull(start: Single, vs: Seq<Single>)
    ensures
        ({
            let r = stretched_over(Range { min: start, max: start }, vs);
            is_hull(r.min, r.max, start, vs)
        }),
{
    let r = stretched_over(Range { min: start, max: start }, vs);
    if start.spec_is_nan() {
        lemma_nan_range(start, vs);
    } else {
        law_range(start, vs);
        assert forall|i: int| 0 <= i < vs.len() && !is_nan_bits(vs[i]) implies !(
        #[trigger] vs[i]).spec_lt(r.min) && !r.max.spec_lt(vs[i]) by {
            assert(in_range(r, vs[i]));
        }
    }
}

proof fn lemma_nan_range(start: Single, vs: Seq<Single>)
    requires
        start.spec_is_nan(),
    ensures
        stretched_over(Range { min: start, max: start }, vs) == (Range { min: start, max: start }),
    decreases vs.len(),
{
    if vs.len() > 0 {
        lemma_nan_range(start, vs.drop_last());
    }
}

/// Along each axis a box runs from the smallest to the largest coordinate of the point that it
/// starts at and of the points that it takes in.
pub proof fn law_box(start: Point, points: Seq<Point>)
    ensures
        ({
            let b = bounds_from(start, points);
            &&& is_hull(b.min.x, b.max.x, start.x, points.map_values(|p: Point| p.x))
            &&& is_hull(b.min.y, b.max.y, start.y, points.map_values(|p: Point| p.y))
            &&& is_hull(b.min.z, b.max.z, start.z, points.map_values(|p: Point| p.z))
        }),
{
    law_extents(start, points);
    law_hull(start.x, points.map_values(|p: Point| p.x));
    law_hull(start.y, points.map_values(|p: Point| p.y));
    law_hull(start.z, points.map_values(|p: Point| p.z));
}

/// Whether the box of a mesh runs along each axis from the smallest to the largest coordinate of a
/// point and of the vertices.
pub open spec fn has_hull(m: MeshView, start: Point) -> bool {
    &&& is_hull(
        m.bounds.min.x,
        m.bounds.max.x,
        start.x,
        Seq::new(m.vertices.len(), |i: int| m.vertices[i].position.x),
    )
    &&& is_hull(
        m.bounds.min.y,
        m.bounds.max.y,
        start.y,
        Seq::new(m.vertices.len(), |i: int| m.vertices[i].position.y),
    )
    &&& is_hull(
        m.bounds.min.z,
        m.bounds.max.z,
        start.z,
        Seq::new(m.vertices.len(), |i: int| m.vertices[i].position.z),
    )
}

// ---------------------------------------------------------------------------
// Triangles
// ---------------------------------------------------------------------------

/// Whether the vertices of a mesh from an index on are the corners of a triangle.
pub open spec fn shows(m: MeshView, n: int, t: Triangle) -> bool {
    &&& 0 <= n && n + 2 < m.vertices.len() && n + 2 < m.normals.len()
    &&& m.vertices[n].position == t.a
    &&& m.vertices[n + 1].position == t.b
    &&& m.vertices[n + 2].position == t.c
}

/// Whether the normals of a mesh from an index on are one and the same, which a function gives for
/// a triangle.
pub open spec fn is_calculated<F: Fn(Triangle) -> Normal>(
    normal: F,
    m: MeshView,
    n: int,
    t: Triangle,
) -> bool {
    &&& call_ensures(normal, (t,), m.normals[n])
    &&& m.normals[n + 1] == m.normals[n]
    &&& m.normals[n + 2] == m.normals[n]
}

proof fn lemma_made_of(
    m: MeshView,
    start: Point,
    triangles: Seq<Triangle>,
    normals: Seq<Normals>,
    i: int,
)
    requires
        Mesh::made_of(m, start, triangles, normals),
    ensures
        m.vertices.len() == 3 * triangles.len(),
        m.normals.len() == 3 * triangles.len(),
        m.indices.len() == 0,
        0 <= i < triangles.len() ==> shows(m, 3 * i, triangles[i]) && m.normals[3 * i]
            == normals[i].a && m.normals[3 * i + 1] == normals[i].b && m.normals[3 * i + 2]
            == normals[i].c,
        has_hull(m, start),
{
    law_three_corners(triangles, i);
    law_three_normals(normals, i);
    let ps = positions(m.vertices);
    assert(ps.len() == m.vertices.len());
    if 0 <= i < triangles.len() {
        assert(ps[3 * i] == m.vertices[3 * i].position);
        assert(ps[3 * i + 1] == m.vertices[3 * i + 1].position);
        assert(ps[3 * i + 2] == m.vertices[3 * i + 2].position);
    }
    law_box(start, ps);
    assert(ps.map_values(|p: Point| p.x) =~= Seq::new(
        m.vertices.len(),
        |i: int| m.vertices[i].position.x,
    ));
    assert(ps.map_values(|p: Point| p.y) =~= Seq::new(
        m.vertices.len(),
        |i: int| m.vertices[i].position.y,
    ));
    assert(ps.map_values(|p: Point| p.z) =~= Seq::new(
        m.vertices.len(),
        |i: int| m.vertices[i].position.z,
    ));
}

/// A mesh that is built of triangles shows them in order, three vertices each, with the normals
/// that they have or else with one that is calculated from the triangle as it is shown. The model
/// had normals if the first triangle has. The box is the smallest around the vertices.
pub proof fn law_built<F: Fn(Triangle) -> Normal>(
    normal: F,
    pieces: Seq<Piece>,
    m: MeshView,
    i: int,
)
    requires
        is_mesh_of(normal, pieces, m),
    ensures
        m.vertices.len() == 3 * pieces.len(),
        m.normals.len() == 3 * pieces.len(),
        m.indices.len() == 0,
        0 <= i < pieces.len() ==> shows(m, 3 * i, pieces[i].triangle) && match pieces[i].normals {
            Some(n) => m.normals[3 * i] == n.a && m.normals[3 * i + 1] == n.b && m.normals[3 * i
                + 2] == n.c,
            None => is_calculated(normal, m, 3 * i, pieces[i].triangle),
        },
        m.model_had_normals <==> pieces[0].normals is Some,
        has_hull(m, m.vertices[0].position),
{
    let normals = choose|normals: Seq<Normals>| #[trigger]
        all_fit(normal, pieces, normals) && Mesh::made_of(
            m,
            pieces[0].triangle.a,
            triangles_of(pieces),
            normals,
        );
    lemma_made_of(m, pieces[0].triangle.a, triangles_of(pieces), normals, i);
    lemma_made_of(m, pieces[0].triangle.a, triangles_of(pieces), normals, 0);
    if 0 <= i < pieces.len() {
        assert(fit(normal, pieces[i], normals[i]));
    }
}

// ---------------------------------------------------------------------------
// STL files
// ---------------------------------------------------------------------------

/// Whether a triangle of an STL file comes without a normal.
pub open spec fn lacks_normal(f: Facet) -> bool {
    is_zero_bits(f.normal.x) && is_zero_bits(f.normal.y) && is_zero_bits(f.normal.z)
}

/// The mesh of an STL file shows the triangles of the file in order and as they are, whether their
/// normals are calculated or not. A triangle keeps the normal of the file at all of its corners,
/// unless it has none or normals are to be calculated: then it has the one that is calculated from
/// the triangle of the file. The model had normals if none is calculated. The box is the smallest
/// around the vertices.
pub proof fn law_stl<F: Fn(Triangle) -> Normal>(
    normal: F,
    bytes: Seq<u8>,
    recalc_normals: bool,
    facets: Seq<Facet>,
    mesh: Mesh,
    i: int,
)
    requires
        stl_facets(bytes) == Some(facets),
        is_stl_load(normal, bytes, recalc_normals, Ok(mesh)),
    ensures
        facets.len() > 0,
        mesh.vertices@.len() == 3 * facets.len(),
        mesh.normals@.len() == 3 * facets.len(),
        mesh.indices@.len() == 0,
        0 <= i < facets.len() ==> shows(mesh@, 3 * i, facets[i].triangle) && if recalc_normals
            || lacks_normal(facets[i]) {
            is_calculated(normal, mesh@, 3 * i, facets[i].triangle)
        } else {
            mesh.normals@[3 * i].normal == facets[i].normal && mesh.normals@[3 * i + 1].normal
                == facets[i].normal && mesh.normals@[3 * i + 2].normal == facets[i].normal
        },
        mesh.model_had_normals <==> !recalc_normals && forall|j: int|
            0 <= j < facets.len() ==> !lacks_normal(#[trigger] facets[j]),
        has_hull(mesh@, mesh.vertices@[0].position),
{
    let m = mesh@;
    let start = facets[0].triangle.a;
    assert(is_stl_mesh(normal, facets, recalc_normals, start, m));
    let pieces = facet_pieces(facets, recalc_normals);
    let normals = choose|normals: Seq<Normals>| #[trigger]
        all_fit(normal, pieces, normals) && Mesh::made_of(m, start, triangles_of(pieces), normals);
    lemma_made_of(m, start, triangles_of(pieces), normals, i);
    lemma_made_of(m, start, triangles_of(pieces), normals, 0);
    assert(triangles_of(pieces)[0] == facets[0].triangle);
    if 0 <= i < facets.len() {
        assert(fit(normal, pieces[i], normals[i]));
        assert(triangles_of(pieces)[i] == facets[i].triangle);
    }
    if mesh.model_had_normals {
        assert forall|j: int| 0 <= j < facets.len() implies !lacks_normal(#[trigger] facets[j]) by {
            assert(!needs_normal(facets[j], recalc_normals));
        }
        assert(!needs_normal(facets[0], recalc_normals));
    } else if !recalc_normals && forall|j: int|
        0 <= j < facets.len() ==> !lacks_normal(#[trigger] facets[j]) {
        assert forall|j: int| 0 <= j < facets.len() implies !needs_normal(
            #[trigger] facets[j],
            recalc_normals,
        ) by {
            assert(!lacks_normal(facets[j]));
        }
    }
}

/// An STL file gives a mesh if and only if it can be read and has triangles, and the error tells
/// which of the two is missing.
pub proof fn law_stl_refused<F: Fn(Triangle) -> Normal>(
    normal: F,
    bytes: Seq<u8>,
    recalc_normals: bool,
    r: Result<Mesh, StlError>,
)
    requires
        is_stl_load(normal, bytes, recalc_normals, r),
    ensures
        r is Ok <==> stl_facets(bytes) is Some && stl_facets(bytes)->0.len() > 0,
        r matches Err(StlError::Read(_)) <==> stl_facets(bytes) is None,
{
}

// ---------------------------------------------------------------------------
// OBJ files
// ---------------------------------------------------------------------------

/// How many indices the first meshes have.
pub open spec fn index_total(ms: Seq<ObjMeshView>, k: int) -> int
    decreases k,
{
    if k <= 0 {
        0
    } else {
        index_total(ms, k - 1) + ms[k - 1].indices.len()
    }
}

/// Whether a point is the one with a number among coordinates that stand one after the other.
pub open spec fn is_point(p: Point, coordinates: Seq<Single>, number: int) -> bool {
    &&& 0 <= number && 3 * number + 2 < coordinates.len()
    &&& p.x == coordinates[3 * number]
    &&& p.y == coordinates[3 * number + 1]
    &&& p.z == coordinates[3 * number + 2]
}

proof fn lemma_pieces_at(mesh: ObjMeshView, n: int, j: int)
    requires
        0 <= j < n,
    ensures
        mesh.pieces(n).len() == n,
        mesh.pieces(n)[j] == mesh.piece(j),
    decreases n,
{
    reveal_with_fuel(ObjMeshView::pieces, 2);
    if j < n - 1 {
        lemma_pieces_at(mesh, n - 1, j);
    } else if n > 1 {
        lemma_pieces_at(mesh, n - 1, 0);
    }
}

proof fn lemma_obj_pieces_at(ms: Seq<ObjMeshView>, n: int, k: int, j: int)
    requires
        0 <= n <= ms.len(),
        forall|i: int| 0 <= i < ms.len() ==> (#[trigger] ms[i]).indices.len() % 3 == 0,
    ensures
        3 * obj_pieces(ms, n).len() == index_total(ms, n),
        0 <= k < n && 0 <= j && 3 * j < ms[k].indices.len() ==> {
            &&& 0 <= index_total(ms, k)
            &&& index_total(ms, k) % 3 == 0
            &&& index_total(ms, k) / 3 + j < obj_pieces(ms, n).len()
            &&& obj_pieces(ms, n)[index_total(ms, k) / 3 + j] == ms[k].piece(j)
        },
    decreases n,
{
    if n > 0 {
        lemma_obj_pieces_at(ms, n - 1, k, j);
        let count = (ms[n - 1].indices.len() / 3) as int;
        assert(ms[n - 1].indices.len() % 3 == 0);
        if count > 0 {
            lemma_pieces_at(ms[n - 1], count, 0);
        }
        assert(ms[n - 1].pieces(count).len() == count);
        if k == n - 1 && 0 <= j && 3 * j < ms[k].indices.len() {
            lemma_pieces_at(ms[k], count, j);
        }
    }
}

/// The mesh of an OBJ file has a vertex for every index of its meshes, one mesh after the other
/// and in order: the point that the index leads to. Its normal is the one that the index leads to
/// where the mesh has normals, and else the one that is calculated from the three vertices of the
/// triangle, at each of them.
pub proof fn law_obj<F: Fn(Triangle) -> Normal>(
    normal: F,
    bytes: Seq<u8>,
    ms: Seq<ObjMeshView>,
    mesh: Mesh,
    k: int,
    n: int,
)
    requires
        obj_meshes(bytes) == Some(ms),
        is_obj_load(normal, bytes, Ok(mesh)),
        0 <= k < ms.len(),
        0 <= n < ms[k].indices.len(),
    ensures
        mesh.vertices@.len() == index_total(ms, ms.len() as int),
        mesh.normals@.len() == mesh.vertices@.len(),
        ({
            let at = index_total(ms, k) + n;
            let first = at - n % 3;
            let t = Triangle {
                a: mesh.vertices@[first].position,
                b: mesh.vertices@[first + 1].position,
                c: mesh.vertices@[first + 2].position,
            };
            &&& 0 <= first && first + 2 < mesh.vertices@.len()
            &&& is_point(mesh.vertices@[at].position, ms[k].positions, ms[k].indices[n] as int)
            &&& if ms[k].normals.len() > 0 {
                is_point(mesh.normals@[at].normal, ms[k].normals, ms[k].indices[n] as int)
            } else {
                is_calculated(normal, mesh@, first, t)
            }
        }),
{
    lemma_obj_result(normal, ms, mesh, k, n);
}

proof fn lemma_obj_result<F: Fn(Triangle) -> Normal>(
    normal: F,
    ms: Seq<ObjMeshView>,
    mesh: Mesh,
    k: int,
    n: int,
)
    requires
        is_obj_result(normal, ms, Ok(mesh)),
        0 <= k < ms.len(),
        0 <= n < ms[k].indices.len(),
    ensures
        mesh.vertices@.len() == index_total(ms, ms.len() as int),
        mesh.normals@.len() == mesh.vertices@.len(),
        ({
            let at = index_total(ms, k) + n;
            let first = at - n % 3;
            let t = Triangle {
                a: mesh.vertices@[first].position,
                b: mesh.vertices@[first + 1].position,
                c: mesh.vertices@[first + 2].position,
            };
            &&& 0 <= first && first + 2 < mesh.vertices@.len()
            &&& is_point(mesh.vertices@[at].position, ms[k].positions, ms[k].indices[n] as int)
            &&& if ms[k].normals.len() > 0 {
                is_point(mesh.normals@[at].normal, ms[k].normals, ms[k].indices[n] as int)
            } else {
                is_calculated(normal, mesh@, first, t)
            }
        }),
{
    let m = mesh@;
    let pieces = obj_pieces(ms, ms.len() as int);
    let start = point_at(ms[0].positions, 0);
    let normals = choose|normals: Seq<Normals>| #[trigger]
        all_fit(normal, pieces, normals) && Mesh::made_of(m, start, triangles_of(pieces), normals);
    assert forall|i: int| 0 <= i < ms.len() implies (#[trigger] ms[i]).indices.len() % 3 == 0 by {
        assert(ms[i].is_shaped());
    }
    assert(ms[k].is_shaped());
    let j = n / 3;
    lemma_obj_pieces_at(ms, ms.len() as int, k, j);
    let i = index_total(ms, k) / 3 + j;
    lemma_made_of(m, start, triangles_of(pieces), normals, i);
    assert(fit(normal, pieces[i], normals[i]));
    assert(triangles_of(pieces)[i] == pieces[i].triangle);
    assert(3 * i == index_total(ms, k) + n - n % 3);
}

/// The box of the mesh of an OBJ file is the smallest around its vertices and the first point of
/// its first mesh. The model counts as having normals.
pub proof fn law_obj_box<F: Fn(Triangle) -> Normal>(
    normal: F,
    bytes: Seq<u8>,
    ms: Seq<ObjMeshView>,
    mesh: Mesh,
)
    requires
        obj_meshes(bytes) == Some(ms),
        is_obj_load(normal, bytes, Ok(mesh)),
    ensures
        ms.len() > 0,
        ms[0].positions.len() >= 3,
        has_hull(
            mesh@,
            (Point {
                x: ms[0].positions[0],
                y: ms[0].positions[1],
                z: ms[0].positions[2],
            }),
        ),
        mesh.model_had_normals,
        mesh.indices@.len() == 0,
{
    let m = mesh@;
    let pieces = obj_pieces(ms, ms.len() as int);
    let start = point_at(ms[0].positions, 0);
    let normals = choose|normals: Seq<Normals>| #[trigger]
        all_fit(normal, pieces, normals) && Mesh::made_of(m, start, triangles_of(pieces), normals);
    lemma_made_of(m, start, triangles_of(pieces), normals, 0);
}

/// The meshes of an OBJ file give a mesh if and only if there is one, the first has a point, the
/// indices of each come in threes, and every index leads to a point, and to a normal where the
/// mesh has normals.
pub proof fn law_obj_refused<F: Fn(Triangle) -> Normal>(
    normal: F,
    ms: Seq<ObjMeshView>,
    r: Result<Mesh, ObjError>,
)
    requires
        is_obj_result(normal, ms, r),
    ensures
        r matches Err(ObjError::EmptyModel) <==> ms.len() == 0,
        r matches Err(ObjError::EmptyMesh) <==> ms.len() > 0 && ms[0].positions.len() < 3,
        r is Ok <==> ms.len() > 0 && ms[0].positions.len() >= 3 && forall|k: int|
            #![trigger ms[k]]
            0 <= k < ms.len() ==> ms[k].indices.len() % 3 == 0 && forall|n: int|
                0 <= n < ms[k].indices.len() ==> 3 * (#[trigger] ms[k].indices[n]) + 2
                    < ms[k].positions.len() && (ms[k].normals.len() == 0 || 3 * ms[k].indices[n] + 2
                    < ms[k].normals.len()),
        r is Ok || r matches Err(ObjError::EmptyModel) || r matches Err(ObjError::EmptyMesh)
            || r matches Err(ObjError::Malformed),
{
    if ms.len() > 0 && ms[0].positions.len() >= 3 {
        if forall|k: int|
            #![trigger ms[k]]
            0 <= k < ms.len() ==> ms[k].indices.len() % 3 == 0 && forall|n: int|
                0 <= n < ms[k].indices.len() ==> 3 * (#[trigger] ms[k].indices[n]) + 2
                    < ms[k].positions.len() && (ms[k].normals.len() == 0 || 3 * ms[k].indices[n] + 2
                    < ms[k].normals.len()) {
            assert forall|k: int| 0 <= k < ms.len() implies (#[trigger] ms[k]).is_shaped() by {
                assert(ms[k].indices.len() % 3 == 0);
            }
        }
        if r is Ok {
            assert forall|k: int| #![trigger ms[k]] 0 <= k < ms.len() implies ms[k].indices.len()
                % 3 == 0 && forall|n: int|
                0 <= n < ms[k].indices.len() ==> 3 * (#[trigger] ms[k].indices[n]) + 2
                    < ms[k].positions.len() && (ms[k].normals.len() == 0 || 3 * ms[k].indices[n] + 2
                    < ms[k].normals.len()) by {
                assert(ms[k].is_shaped());
            }
        }
    }
}

/// An OBJ file gives an error of its own if it refers too far, if it cannot be read, or if its
/// meshes give one, and the first of these is the one that is told of.
pub proof fn law_obj_load_refused<F: Fn(Triangle) -> Normal>(
    normal: F,
    bytes: Seq<u8>,
    r: Result<Mesh, ObjError>,
)
    requires
        is_obj_load(normal, bytes, r),
    ensures
        (r matches Err(ObjError::WildReference)) <==> !references_fit(utf8_lossy(bytes)),
        (r matches Err(ObjError::Read(_))) <==> references_fit(utf8_lossy(bytes)) && obj_meshes(
            bytes,
        ) is None,
        references_fit(utf8_lossy(bytes)) ==> (obj_meshes(bytes) matches Some(ms)
            ==> is_obj_result(normal, ms, r)),
{
}

// ---------------------------------------------------------------------------
// Functions
// ---------------------------------------------------------------------------

/// Turning a triangle changes its last two corners over, and leaves it alone if it is not to be
/// turned.
pub proof fn law_turned(t: Triangle, flip: bool, r: Triangle)
    requires
        call_ensures(Triangle::turned, (t, flip), r),
    ensures
        r.a == t.a,
        flip ==> r.b == t.c && r.c == t.b,
        !flip ==> r.b == t.b && r.c == t.c,
{
}

/// The comparison of numbers says what their bit patterns say.
pub proof fn law_lt(a: Single, b: Single, r: bool)
    requires
        call_ensures(Single::lt, (a, b), r),
    ensures
        r == a.spec_lt(b),
        a.bits <= 0x7f80_0000 && b.bits <= 0x7f80_0000 ==> (r <==> a.bits < b.bits),
        is_nan_bits(a) || is_nan_bits(b) ==> !r,
{
    law_bits(a, b);
}

/// A point is zero if all of its coordinates are, and finite if all of them are.
pub proof fn law_point(p: Point, zero: bool, finite: bool)
    requires
        call_ensures(Point::is_zero, (p,), zero),
        call_ensures(Point::is_finite, (p,), finite),
    ensures
        zero <==> is_zero_bits(p.x) && is_zero_bits(p.y) && is_zero_bits(p.z),
        finite <==> is_finite_bits(p.x) && is_finite_bits(p.y) && is_finite_bits(p.z),
{
    law_bits(p.x, p.x);
    law_bits(p.y, p.y);
    law_bits(p.z, p.z);
}

/// Whether a bit pattern is that of a number other than the infinities.
pub open spec fn is_finite_bits(v: Single) -> bool {
    v.bits < 0x7f80_0000 || 0x8000_0000 <= v.bits < 0xff80_0000
}

/// A box starts at a single point.
pub proof fn law_new_box(p: &Point, b: BoundingBox)
    requires
        call_ensures(BoundingBox::new, (p,), b),
    ensures
        b.min == *p,
        b.max == *p,
{
}

/// The model of a mesh is what the mesh holds, and an empty mesh holds nothing.
pub proof fn law_mesh_view(mesh: Mesh, start: &Point, had_normals: bool)
    ensures
        mesh@.vertices == mesh.vertices@,
        mesh@.normals == mesh.normals@,
        mesh@.indices == mesh.indices@,
        mesh@.bounds == mesh.bounds,
        mesh@.model_had_normals == mesh.model_had_normals,
        call_ensures(Mesh::empty, (start, had_normals), mesh) ==> mesh.vertices@.len() == 0
            && mesh.normals@.len() == 0 && mesh.indices@.len() == 0 && mesh.bounds.min == *start
            && mesh.bounds.max == *start && mesh.model_had_normals == had_normals,
{
}

/// Triangles of an STL file give the mesh that shows them, and none if there are none.
pub proof fn law_from_facets<F: Fn(Triangle) -> Normal>(
    facets: &Vec<Facet>,
    recalc_normals: bool,
    normal: &F,
    r: Option<Mesh>,
    i: int,
)
    requires
        call_ensures(Mesh::from_facets, (facets, recalc_normals, normal), r),
        finds_normals(*normal),
    ensures
        r is None <==> facets@.len() == 0,
        r matches Some(mesh) ==> mesh.vertices@.len() == 3 * facets@.len() && mesh.normals@.len()
            == 3 * facets@.len(),
        r matches Some(mesh) ==> 0 <= i < facets@.len() ==> shows(
            mesh@,
            3 * i,
            facets@[i].triangle,
        ) && if recalc_normals || lacks_normal(facets@[i]) {
            is_calculated(*normal, mesh@, 3 * i, facets@[i].triangle)
        } else {
            mesh.normals@[3 * i].normal == facets@[i].normal && mesh.normals@[3 * i + 1].normal
                == facets@[i].normal && mesh.normals@[3 * i + 2].normal == facets@[i].normal
        },
{
    if let Some(mesh) = r {
        let start = facets@[0].triangle.a;
        let pieces = facet_pieces(facets@, recalc_normals);
        let normals = choose|normals: Seq<Normals>| #[trigger]
            all_fit(*normal, pieces, normals) && Mesh::made_of(
                mesh@,
                start,
                triangles_of(pieces),
                normals,
            );
        lemma_made_of(mesh@, start, triangles_of(pieces), normals, i);
        if 0 <= i < facets@.len() {
            assert(fit(*normal, pieces[i], normals[i]));
            assert(triangles_of(pieces)[i] == facets@[i].triangle);
        }
    }
}

/// The loaders of STL and OBJ files load exactly the bytes that they are given, with the settings
/// that they are given. Normals of an OBJ file are never calculated on demand.
pub proof fn law_loaders<F: Fn(Triangle) -> Normal>(
    bytes: &[u8],
    recalc_normals: bool,
    normal: &F,
    stl: Result<Mesh, StlError>,
    obj: Result<Mesh, ObjError>,
)
    requires
        finds_normals(*normal),
        call_ensures(Mesh::from_stl, (bytes, recalc_normals, normal), stl),
        call_ensures(Mesh::from_obj, (bytes, recalc_normals, normal), obj),
    ensures
        is_stl_load(*normal, bytes@, recalc_normals, stl),
        is_obj_load(*normal, bytes@, obj),
{
}

/// Whether the models of meshes are what the meshes hold.
pub open spec fn are_models(ms: Seq<ObjMeshView>, meshes: Seq<ObjMesh>) -> bool {
    &&& ms.len() == meshes.len()
    &&& forall|k: int|
        0 <= k < meshes.len() ==> ms[k].positions == (#[trigger] meshes[k]).positions@
            && ms[k].normals == meshes[k].normals@ && ms[k].indices == meshes[k].indices@
}

/// Meshes of an OBJ file are taken as they are.
pub proof fn law_from_obj_meshes<F: Fn(Triangle) -> Normal>(
    meshes: &Vec<ObjMesh>,
    normal: &F,
    r: Result<Mesh, ObjError>,
    ms: Seq<ObjMeshView>,
)
    requires
        finds_normals(*normal),
        call_ensures(Mesh::from_obj_meshes, (meshes, normal), r),
        are_models(ms, meshes@),
    ensures
        is_obj_result(*normal, ms, r),
{
    assert forall|k: int| 0 <= k < ms.len() implies ms[k] == obj_meshes_view(meshes@)[k] by {
        assert(meshes@[k]@ == obj_meshes_view(meshes@)[k]);
    }
    assert(ms =~= obj_meshes_view(meshes@));
}

} // verus!

//! Meshes made of triangles.
use vstd::prelude::*;

use super::bounds::{bounds_from, in_range, law_bounds_contain, BoundingBox, Point};

verus! {

/// A corner of a triangle.
#[derive(Clone, Copy, PartialEq, Eq, Structural, Debug)]
pub struct Vertex {
    pub position: Point,
}

/// The direction that a surface faces at a corner.
#[derive(Clone, Copy, PartialEq, Eq, Structural, Debug)]
pub struct Normal {
    pub normal: Point,
}

/// Three points, counter-clockwise when seen from outside.
#[derive(Clone, Copy, PartialEq, Eq, Structural, Debug)]
pub struct Triangle {
    pub a: Point,
    pub b: Point,
    pub c: Point,
}

impl Triangle {
    /// The triangle with its corners the other way round, if `flip` says so.
    pub open spec fn spec_turned(self, flip: bool) -> Triangle {
        if flip {
            Triangle { a: self.a, b: self.c, c: self.b }
        } else {
            self
        }
    }

    /// The triangle with its corners the other way round, if `flip` says so.
    pub fn turned(self, flip: bool) -> (r: Triangle)
        ensures
            r == self.spec_turned(flip),
    {
        if flip {
            Triangle { a: self.a, b: self.c, c: self.b }
        } else {
            self
        }
    }
}

/// Turning a triangle twice gives it back.
pub proof fn law_turned_twice(t: Triangle, flip: bool)
    ensures
        t.spec_turned(flip).spec_turned(flip) == t,
{
}

/// The normals at the corners of a triangle.
#[derive(Clone, Copy, PartialEq, Eq, Structural, Debug)]
pub struct Normals {
    pub a: Normal,
    pub b: Normal,
    pub c: Normal,
}

/// Triangles with their normals and the box around them.
pub struct Mesh {
    pub vertices: Vec<Vertex>,
    pub normals: Vec<Normal>,
    pub indices: Vec<usize>,
    pub bounds: BoundingBox,
    pub model_had_normals: bool,
}

/// The model of a `Mesh`.
#[verifier::ext_equal]
pub struct MeshView {
    pub vertices: Seq<Vertex>,
    pub normals: Seq<Normal>,
    pub indices: Seq<usize>,
    pub bounds: BoundingBox,
    pub model_had_normals: bool,
}

impl View for Mesh {
    type V = MeshView;

    open spec fn view(&self) -> MeshView {
        MeshView {
            vertices: self.vertices@,
            normals: self.normals@,
            indices: self.indices@,
            bounds: self.bounds,
            model_had_normals: self.model_had_normals,
        }
    }
}

/// A function that can find the normal of any triangle.
pub open spec fn finds_normals<F: Fn(Triangle) -> Normal>(normal: F) -> bool {
    forall|t: Triangle| #[trigger] call_requires(normal, (t,))
}

/// The vertices of triangles, in order.
pub open spec fn corners(triangles: Seq<Triangle>) -> Seq<Point>
    decreases triangles.len(),
{
    if triangles.len() == 0 {
        Seq::empty()
    } else {
        let t = triangles.last();
        corners(triangles.drop_last()).push(t.a).push(t.b).push(t.c)
    }
}

/// The positions of vertices.
pub open spec fn positions(vertices: Seq<Vertex>) -> Seq<Point> {
    vertices.map_values(|v: Vertex| v.position)
}

/// Three normals for every triangle.
pub open spec fn flat(normals: Seq<Normals>) -> Seq<Normal>
    decreases normals.len(),
{
    if normals.len() == 0 {
        Seq::empty()
    } else {
        let n = normals.last();
        flat(normals.drop_last()).push(n.a).push(n.b).push(n.c)
    }
}

impl Mesh {
    /// A mesh without triangles, whose box starts at a point.
    pub fn empty(start: &Point, model_had_normals: bool) -> (r: Mesh)
        ensures
            r@ == (MeshView {
                vertices: Seq::empty(),
                normals: Seq::empty(),
                indices: Seq::empty(),
                bounds: bounds_from(*start, Seq::empty()),
                model_had_normals,
            }),
    {
        Mesh {
            vertices: Vec::new(),
            normals: Vec::new(),
            indices: Vec::new(),
            bounds: BoundingBox::new(start),
            model_had_normals,
        }
    }

    /// Whether the mesh is made of some triangles with normals, and its box starts at a point
    /// and takes in their corners.
    pub open spec fn made_of(
        m: MeshView,
        start: Point,
        triangles: Seq<Triangle>,
        normals: Seq<Normals>,
    ) -> bool {
        &&& triangles.len() == normals.len()
        &&& positions(m.vertices) == corners(triangles)
        &&& m.normals == flat(normals)
        &&& m.indices.len() == 0
        &&& m.bounds == bounds_from(start, corners(triangles))
    }

    /// Adds a triangle with the normals at its corners.
    pub(crate) fn add(
        &mut self,
        t: Triangle,
        n: Normals,
        Ghost(start): Ghost<Point>,
        Ghost(triangles): Ghost<Seq<Triangle>>,
        Ghost(normals): Ghost<Seq<Normals>>,
    )
        requires
            Mesh::made_of(old(self)@, start, triangles, normals),
        ensures
            Mesh::made_of(final(self)@, start, triangles.push(t), normals.push(n)),
            final(self).model_had_normals == old(self).model_had_normals,
            final(self).normals@ == old(self).normals@ + seq![n.a, n.b, n.c],
    {
        let ghost before = corners(triangles);
        self.bounds.expand(&t.a);
        self.vertices.push(Vertex { position: t.a });
        self.bounds.expand(&t.b);
        self.vertices.push(Vertex { position: t.b });
        self.bounds.expand(&t.c);
        self.vertices.push(Vertex { position: t.c });
        self.normals.push(n.a);
        self.normals.push(n.b);
        self.normals.push(n.c);
        proof {
            assert(triangles.push(t).drop_last() =~= triangles);
            assert(normals.push(n).drop_last() =~= normals);
            let (one, two, three) = (
                before.push(t.a),
                before.push(t.a).push(t.b),
                before.push(t.a).push(t.b).push(t.c),
            );
            assert(one.drop_last() =~= before);
            assert(two.drop_last() =~= one);
            assert(three.drop_last() =~= two);
            assert(bounds_from(start, one) == bounds_from(start, before).expanded(t.a));
            assert(bounds_from(start, two) == bounds_from(start, one).expanded(t.b));
            assert(positions(self.vertices@) =~= three);
            assert(self.normals@ =~= old(self).normals@ + seq![n.a, n.b, n.c]);
        }
    }
}

// ---------------------------------------------------------------------------
// Building a mesh triangle by triangle
// ---------------------------------------------------------------------------

/// A triangle as a format loader hands it over, with the normals that it has.
pub struct Piece {
    pub triangle: Triangle,
    pub normals: Option<Normals>,
}

/// Whether normals are right for a triangle: those that it has, or else the one that is
/// calculated from it, at every corner.
pub open spec fn fit<F: Fn(Triangle) -> Normal>(normal: F, piece: Piece, n: Normals) -> bool {
    match piece.normals {
        Some(given) => n == given,
        None => n.b == n.a && n.c == n.a && call_ensures(normal, (piece.triangle,), n.a),
    }
}

/// Whether normals are right for triangles.
pub open spec fn all_fit<F: Fn(Triangle) -> Normal>(
    normal: F,
    pieces: Seq<Piece>,
    normals: Seq<Normals>,
) -> bool {
    &&& pieces.len() == normals.len()
    &&& forall|i: int| 0 <= i < pieces.len() ==> fit(normal, #[trigger] pieces[i], normals[i])
}

/// The triangles of pieces.
pub open spec fn triangles_of(pieces: Seq<Piece>) -> Seq<Triangle> {
    pieces.map_values(|p: Piece| p.triangle)
}

/// The mesh of one or more pieces. Its box starts at the first corner. Whether the model had
/// normals is told by the first piece.
pub open spec fn is_mesh_of<F: Fn(Triangle) -> Normal>(
    normal: F,
    pieces: Seq<Piece>,
    m: MeshView,
) -> bool {
    &&& pieces.len() > 0
    &&& m.model_had_normals == (pieces[0].normals is Some)
    &&& exists|normals: Seq<Normals>| #[trigger]
        all_fit(normal, pieces, normals) && Mesh::made_of(
            m,
            pieces[0].triangle.a,
            triangles_of(pieces),
            normals,
        )
}

/// Collects triangles from the format loaders that build a mesh one triangle at a time.
pub struct MeshBuilder<'a, F: Fn(Triangle) -> Normal> {
    mesh: Option<Mesh>,
    normal: &'a F,
    pieces: Ghost<Seq<Piece>>,
}

impl<'a, F: Fn(Triangle) -> Normal> View for MeshBuilder<'a, F> {
    type V = Seq<Piece>;

    closed spec fn view(&self) -> Seq<Piece> {
        self.pieces@
    }
}

impl<'a, F: Fn(Triangle) -> Normal> MeshBuilder<'a, F> {
    /// The function that calculates normals.
    pub closed spec fn spec_normal(&self) -> F {
        *self.normal
    }

    /// The normals at the corners so far.
    pub closed spec fn normals(&self) -> Seq<Normal> {
        match self.mesh {
            Some(mesh) => mesh.normals@,
            None => Seq::empty(),
        }
    }

    /// The mesh is that of the pieces so far.
    pub closed spec fn wf(&self) -> bool {
        &&& finds_normals(*self.normal)
        &&& match self.mesh {
            Some(mesh) => is_mesh_of(*self.normal, self@, mesh@),
            None => self@.len() == 0,
        }
    }

    /// Nothing so far.
    pub fn new(normal: &'a F) -> (r: MeshBuilder<'a, F>)
        requires
            finds_normals(*normal),
        ensures
            r.wf(),
            r.spec_normal() == *normal,
            r@ == Seq::<Piece>::empty(),
            r.normals() == Seq::<Normal>::empty(),
    {
        MeshBuilder { mesh: None, normal, pieces: Ghost(Seq::empty()) }
    }

    /// Adds a triangle whose vertices are in counter-clockwise order when seen from outside.
    /// The normals are calculated from the triangle when not given.
    pub fn add_triangle(&mut self, triangle: Triangle, normals: Option<Normals>)
        requires
            old(self).wf(),
        ensures
            final(self).wf(),
            final(self).spec_normal() == old(self).spec_normal(),
            final(self)@ == old(self)@.push((Piece { triangle, normals })),
            exists|n: Normals| #[trigger]
                fit(old(self).spec_normal(), (Piece { triangle, normals }), n)
                    && final(self).normals() == old(self).normals() + seq![n.a, n.b, n.c],
    {
        let ghost pieces = self.pieces@;
        let ghost piece = Piece { triangle, normals };
        let normal = self.normal;
        let n = match normals {
            Some(normals) => normals,
            None => {
                let n = normal(triangle);
                Normals { a: n, b: n, c: n }
            },
        };
        let mut mesh = match self.mesh.take() {
            Some(mesh) => mesh,
            None => Mesh::empty(&triangle.a, normals.is_some()),
        };
        let ghost start = if pieces.len() == 0 {
            triangle.a
        } else {
            pieces[0].triangle.a
        };
        let ghost known = if pieces.len() == 0 {
            Seq::empty()
        } else {
            choose|known: Seq<Normals>| #[trigger]
                all_fit(*normal, pieces, known) && Mesh::made_of(
                    mesh@,
                    start,
                    triangles_of(pieces),
                    known,
                )
        };
        proof {
            if pieces.len() == 0 {
                assert(triangles_of(pieces) =~= Seq::empty());
                assert(positions(mesh.vertices@) =~= Seq::empty());
            }
            assert(all_fit(*normal, pieces, known));
        }
        assert(mesh.normals@ =~= old(self).normals());
        mesh.add(triangle, n, Ghost(start), Ghost(triangles_of(pieces)), Ghost(known));
        proof {
            let after = pieces.push(piece);
            assert(triangles_of(after) =~= triangles_of(pieces).push(triangle));
            assert(all_fit(*normal, after, known.push(n)));
        }
        self.mesh = Some(mesh);
        self.pieces = Ghost(pieces.push(piece));
        assert(fit(old(self).spec_normal(), piece, n));
    }

    /// Finishes the mesh. There is none when there are no triangles.
    pub fn finish(self) -> (r: Option<Mesh>)
        requires
            self.wf(),
        ensures
            match r {
                Some(mesh) => is_mesh_of(self.spec_normal(), self@, mesh@) && mesh.normals@
                    == self.normals(),
                None => self@.len() == 0,
            },
    {
        self.mesh
    }
}

// ---------------------------------------------------------------------------
// Laws
// ---------------------------------------------------------------------------

/// Triangles have three corners each.
pub proof fn law_three_corners(triangles: Seq<Triangle>, i: int)
    ensures
        corners(triangles).len() == 3 * triangles.len(),
        0 <= i < triangles.len() ==> corners(triangles)[3 * i] == triangles[i].a && corners(
            triangles,
        )[3 * i + 1] == triangles[i].b && corners(triangles)[3 * i + 2] == triangles[i].c,
    decreases triangles.len(),
{
    if triangles.len() > 0 {
        law_three_corners(triangles.drop_last(), i);
    }
}

/// Triangles have three normals each.
pub proof fn law_three_normals(normals: Seq<Normals>, i: int)
    ensures
        flat(normals).len() == 3 * normals.len(),
        0 <= i < normals.len() ==> flat(normals)[3 * i] == normals[i].a && flat(normals)[3 * i + 1]
            == normals[i].b && flat(normals)[3 * i + 2] == normals[i].c,
    decreases normals.len(),
{
    if normals.len() > 0 {
        law_three_normals(normals.drop_last(), i);
    }
}

/// A mesh has as many normals as vertices, three for every triangle, and the coordinates of its
/// vertices lie inside its box as far as they and those of the point it started at are numbers.
pub proof fn law_mesh(
    m: MeshView,
    start: Point,
    triangles: Seq<Triangle>,
    normals: Seq<Normals>,
    i: int,
)
    requires
        Mesh::made_of(m, start, triangles, normals),
    ensures
        m.vertices.len() == 3 * triangles.len(),
        m.normals.len() == m.vertices.len(),
        0 <= i < m.vertices.len() ==> {
            let p = m.vertices[i].position;
            &&& !start.x.spec_is_nan() && !p.x.spec_is_nan() ==> in_range(m.bounds.x(), p.x)
            &&& !start.y.spec_is_nan() && !p.y.spec_is_nan() ==> in_range(m.bounds.y(), p.y)
            &&& !start.z.spec_is_nan() && !p.z.spec_is_nan() ==> in_range(m.bounds.z(), p.z)
        },
{
    law_three_corners(triangles, 0);
    law_three_normals(normals, 0);
    assert(positions(m.vertices).len() == m.vertices.len());
    if 0 <= i < m.vertices.len() {
        assert(positions(m.vertices)[i] == m.vertices[i].position);
        law_bounds_contain(start, corners(triangles), i);
    }
}

} // verus!

//! Meshed shells where an assembly places them.
use vstd::prelude::*;

use super::syntax::StepError;
use super::walk::Instance;
use crate::mesh::bounds::Point;
use crate::mesh::triangles::{
    finds_normals, is_mesh_of, Mesh, MeshBuilder, Normal, Normals, Piece, Triangle,
};

verus! {

/// A corner of a triangle: the numbers of its position and, if it has one, its normal.
#[derive(Clone, Copy, PartialEq, Eq, Structural, Debug)]
pub struct Corner {
    pub position: usize,
    pub normal: Option<usize>,
}

/// A triangle of a meshed shell.
#[derive(Clone, Copy, PartialEq, Eq, Structural, Debug)]
pub struct PolygonFace {
    pub a: Corner,
    pub b: Corner,
    pub c: Corner,
}

/// A meshed shell with its positions and normals as the assembly places them.
pub struct Polygon {
    pub positions: Vec<Point>,
    pub normals: Vec<Point>,
    pub faces: Vec<PolygonFace>,
    /// Whether the transforms that place the shell mirror it.
    pub mirrored: bool,
    /// Whether the faces of the shell are reversed.
    pub reversed: bool,
}

/// The model of a `Polygon`.
pub struct PolygonView {
    pub positions: Seq<Point>,
    pub normals: Seq<Point>,
    pub faces: Seq<PolygonFace>,
    pub mirrored: bool,
    pub reversed: bool,
}

impl View for Polygon {
    type V = PolygonView;

    open spec fn view(&self) -> PolygonView {
        PolygonView {
            positions: self.positions@,
            normals: self.normals@,
            faces: self.faces@,
            mirrored: self.mirrored,
            reversed: self.reversed,
        }
    }
}

/// The models of several meshed shells.
pub open spec fn polygons_view(polygons: Seq<Polygon>) -> Seq<PolygonView> {
    polygons.map_values(|p: Polygon| p@)
}

impl PolygonFace {
    /// Whether the corners have positions among the first.
    pub open spec fn fits(self, count: nat) -> bool {
        self.a.position < count && self.b.position < count && self.c.position < count
    }
}

impl PolygonView {
    /// Whether the corners of every triangle have positions.
    pub open spec fn is_whole(self) -> bool {
        forall|i: int|
            0 <= i < self.faces.len() ==> (#[trigger] self.faces[i]).fits(self.positions.len())
    }

    /// Whether the corners of triangles change places. A mirroring transform turns
    /// counter-clockwise triangles clockwise, and a reversed shell has them inside out. Both
    /// together leave them as they are.
    pub open spec fn flips(self) -> bool {
        self.mirrored != self.reversed
    }

    /// The normal at a corner.
    pub open spec fn normal_at(self, corner: Corner) -> Option<Point> {
        match corner.normal {
            Some(i) => if i < self.normals.len() {
                Some(self.normals[i as int])
            } else {
                None
            },
            None => None,
        }
    }

    /// The normals of a triangle, when every corner has one and all of them are finite.
    pub open spec fn normals_of(self, a: Corner, b: Corner, c: Corner) -> Option<Normals> {
        match (self.normal_at(a), self.normal_at(b), self.normal_at(c)) {
            (Some(na), Some(nb), Some(nc)) => if na.spec_is_finite() && nb.spec_is_finite()
                && nc.spec_is_finite() {
                Some(
                    Normals {
                        a: Normal { normal: na },
                        b: Normal { normal: nb },
                        c: Normal { normal: nc },
                    },
                )
            } else {
                None
            },
            _ => None,
        }
    }

    /// A triangle as a piece of a mesh.
    pub open spec fn piece(self, face: PolygonFace) -> Piece {
        let (b, c) = if self.flips() {
            (face.c, face.b)
        } else {
            (face.b, face.c)
        };
        Piece {
            triangle: Triangle {
                a: self.positions[face.a.position as int],
                b: self.positions[b.position as int],
                c: self.positions[c.position as int],
            },
            normals: self.normals_of(face.a, b, c),
        }
    }

    /// The triangles as pieces of a mesh.
    pub open spec fn pieces(self) -> Seq<Piece> {
        self.faces.map_values(|face: PolygonFace| self.piece(face))
    }
}

/// The triangles of the first of several meshed shells.
pub open spec fn polygon_pieces(polygons: Seq<PolygonView>, n: int) -> Seq<Piece>
    decreases n,
{
    if n <= 0 {
        Seq::empty()
    } else {
        polygon_pieces(polygons, n - 1) + polygons[n - 1].pieces()
    }
}

/// The meshed shells that the first of several instances draw: those of the instances that have
/// one, turned inside out as the instances say.
pub open spec fn drawn_shapes(
    instances: Seq<Instance>,
    shapes: Seq<Option<Polygon>>,
    n: int,
) -> Seq<PolygonView>
    decreases n,
{
    if n <= 0 {
        Seq::empty()
    } else {
        let before = drawn_shapes(instances, shapes, n - 1);
        match shapes[n - 1] {
            Some(p) => before.push(
                PolygonView { reversed: instances[n - 1].shell.reversed, ..p@ },
            ),
            None => before,
        }
    }
}

/// Whether the corners of every triangle of meshed shells have positions.
pub open spec fn all_whole(shapes: Seq<Option<Polygon>>) -> bool {
    forall|i: int|
        0 <= i < shapes.len() ==> match #[trigger] shapes[i] {
            Some(p) => p@.is_whole(),
            None => true,
        }
}

proof fn lemma_drawn_whole(instances: Seq<Instance>, shapes: Seq<Option<Polygon>>, n: int, i: int)
    requires
        n <= shapes.len() == instances.len(),
        all_whole(shapes),
        0 <= i < drawn_shapes(instances, shapes, n).len(),
    ensures
        drawn_shapes(instances, shapes, n)[i].is_whole(),
    decreases n,
{
    let before = drawn_shapes(instances, shapes, n - 1);
    if i < before.len() {
        lemma_drawn_whole(instances, shapes, n - 1, i);
    } else {
        let p = shapes[n - 1]->0@;
        let q = drawn_shapes(instances, shapes, n)[i];
        assert(p.is_whole());
        assert forall|j: int| 0 <= j < q.faces.len() implies (#[trigger] q.faces[j]).fits(
            q.positions.len(),
        ) by {
            assert(p.faces[j].fits(p.positions.len()));
        }
    }
}

/// The meshed shells that instances draw, one for each instance that has one, in order. A shell
/// that an instance reverses is turned inside out.
pub fn drawn(instances: &Vec<Instance>, mut shapes: Vec<Option<Polygon>>) -> (r: Vec<Polygon>)
    requires
        shapes@.len() == instances@.len(),
    ensures
        polygons_view(r@) == drawn_shapes(instances@, shapes@, instances@.len() as int),
        all_whole(shapes@) ==> forall|i: int|
            0 <= i < r@.len() ==> (#[trigger] r@[i])@.is_whole(),
{
    let ghost all = shapes@;
    let mut r: Vec<Polygon> = Vec::new();
    assert(polygons_view(r@) =~= drawn_shapes(instances@, all, 0));
    for i in 0..instances.len()
        invariant
            shapes@.len() == instances@.len(),
            all.len() == instances@.len(),
            forall|j: int| i <= j < all.len() ==> #[trigger] shapes@[j] == all[j],
            polygons_view(r@) == drawn_shapes(instances@, all, i as int),
    {
        let ghost before = polygons_view(r@);
        let shape = shapes[i].take();
        assert(shape == all[i as int]);
        if let Some(mut polygon) = shape {
            polygon.reversed = instances[i].shell.reversed;
            r.push(polygon);
            assert(polygons_view(r@) =~= before.push(polygon@));
        }
    }
    proof {
        if all_whole(all) {
            assert forall|i: int| 0 <= i < r@.len() implies (#[trigger] r@[i])@.is_whole() by {
                lemma_drawn_whole(instances@, all, all.len() as int, i);
                assert(polygons_view(r@)[i] == r@[i]@);
            }
        }
    }
    r
}

impl Polygon {
    /// Whether the corners of every triangle have positions.
    pub fn is_whole(&self) -> (r: bool)
        ensures
            r == self@.is_whole(),
    {
        let count = self.positions.len();
        for i in 0..self.faces.len()
            invariant
                count == self.positions@.len(),
                forall|j: int|
                    0 <= j < i ==> (#[trigger] self.faces@[j]).fits(self.positions@.len()),
        {
            let face = self.faces[i];
            if face.a.position >= count || face.b.position >= count || face.c.position >= count {
                assert(!self@.faces[i as int].fits(self@.positions.len()));
                return false;
            }
        }
        true
    }

    /// The normal at a corner.
    fn normal_at(&self, corner: Corner) -> (r: Option<Point>)
        ensures
            r == self@.normal_at(corner),
    {
        match corner.normal {
            Some(i) => if i < self.normals.len() {
                Some(self.normals[i])
            } else {
                None
            },
            None => None,
        }
    }

    /// The normals of a triangle, when every corner has one and all of them are finite.
    fn normals_of(&self, a: Corner, b: Corner, c: Corner) -> (r: Option<Normals>)
        ensures
            r == self@.normals_of(a, b, c),
    {
        match (self.normal_at(a), self.normal_at(b), self.normal_at(c)) {
            (Some(na), Some(nb), Some(nc)) => if na.is_finite() && nb.is_finite() && nc.is_finite() {
                Some(
                    Normals {
                        a: Normal { normal: na },
                        b: Normal { normal: nb },
                        c: Normal { normal: nc },
                    },
                )
            } else {
                None
            },
            _ => None,
        }
    }
}

/// Adds the triangles of a meshed shell.
pub fn add_polygon<F: Fn(Triangle) -> Normal>(builder: &mut MeshBuilder<F>, polygon: &Polygon)
    requires
        old(builder).wf(),
        polygon@.is_whole(),
    ensures
        final(builder).wf(),
        final(builder).spec_normal() == old(builder).spec_normal(),
        final(builder)@ == old(builder)@ + polygon@.pieces(),
{
    let ghost base = builder@;
    let ghost all = polygon@.pieces();
    assert(base + all.take(0) =~= base);
    let flips = polygon.mirrored != polygon.reversed;
    for i in 0..polygon.faces.len()
        invariant
            builder.wf(),
            builder.spec_normal() == old(builder).spec_normal(),
            polygon@.is_whole(),
            flips == polygon@.flips(),
            base == old(builder)@,
            all == polygon@.pieces(),
            builder@ == base + all.take(i as int),
    {
        let face = polygon.faces[i];
        assert(polygon@.faces[i as int].fits(polygon@.positions.len()));
        let (b, c) = if flips {
            (face.c, face.b)
        } else {
            (face.b, face.c)
        };
        let triangle = Triangle {
            a: polygon.positions[face.a.position],
            b: polygon.positions[b.position],
            c: polygon.positions[c.position],
        };
        builder.add_triangle(triangle, polygon.normals_of(face.a, b, c));
        assert(all[i as int] == polygon@.piece(face));
        assert((base + all.take(i as int)).push(all[i as int]) =~= base + all.take(i + 1));
    }
    assert(all.take(all.len() as int) =~= all);
}

impl Mesh {
    /// The mesh of the meshed shells of a STEP file.
    pub fn from_polygons<F: Fn(Triangle) -> Normal>(polygons: &Vec<Polygon>, normal: &F) -> (r:
        Result<Mesh, StepError>)
        requires
            finds_normals(*normal),
            forall|i: int| 0 <= i < polygons@.len() ==> (#[trigger] polygons@[i])@.is_whole(),
        ensures
            ({
                let pieces = polygon_pieces(polygons_view(polygons@), polygons@.len() as int);
                match r {
                    Ok(mesh) => is_mesh_of(*normal, pieces, mesh@),
                    Err(StepError::NoTriangles) => pieces.len() == 0,
                    Err(_) => false,
                }
            }),
    {
        let ghost all = polygons_view(polygons@);
        let mut builder = MeshBuilder::new(normal);
        for i in 0..polygons.len()
            invariant
                builder.wf(),
                builder.spec_normal() == *normal,
                all == polygons_view(polygons@),
                forall|i: int| 0 <= i < polygons@.len() ==> (#[trigger] polygons@[i])@.is_whole(),
                builder@ == polygon_pieces(all, i as int),
        {
            assert(all[i as int] == polygons@[i as int]@);
            add_polygon(&mut builder, &polygons[i]);
        }
        match builder.finish() {
            Some(mesh) => Ok(mesh),
            None => Err(StepError::NoTriangles),
        }
    }
}

// ---------------------------------------------------------------------------
// Laws
// ---------------------------------------------------------------------------

/// A shell that is both mirrored and reversed has its triangles as one that is neither.
pub proof fn law_flips_cancel(p: PolygonView, face: PolygonFace)
    requires
        p.mirrored && p.reversed,
    ensures
        p.piece(face) == (PolygonView { mirrored: false, reversed: false, ..p }).piece(face),
{
}

/// Turning a shell inside out turns each of its triangles the other way round, with the normals
/// at the same corners.
pub proof fn law_reversed_turns(p: PolygonView, face: PolygonFace)
    ensures
        ({
            let q = PolygonView { reversed: !p.reversed, ..p };
            &&& q.piece(face).triangle == p.piece(face).triangle.spec_turned(true)
            &&& match (p.piece(face).normals, q.piece(face).normals) {
                (Some(m), Some(n)) => n.a == m.a && n.b == m.c && n.c == m.b,
                (None, None) => true,
                _ => false,
            }
        }),
{
}

/// How many of the first of several instances have a meshed shell.
pub open spec fn shape_count(shapes: Seq<Option<Polygon>>, n: int) -> int
    decreases n,
{
    if n <= 0 {
        0
    } else {
        shape_count(shapes, n - 1) + if shapes[n - 1] is Some {
            1int
        } else {
            0int
        }
    }
}

/// Each instance that has a meshed shell draws it once, behind those of the instances before it,
/// and nothing else is drawn.
pub proof fn law_each_instance_drawn(
    instances: Seq<Instance>,
    shapes: Seq<Option<Polygon>>,
    n: int,
    i: int,
)
    requires
        0 <= i < n <= shapes.len() == instances.len(),
    ensures
        drawn_shapes(instances, shapes, n).len() == shape_count(shapes, n),
        0 <= shape_count(shapes, i) <= shape_count(shapes, n),
        shapes[i] matches Some(p) ==> shape_count(shapes, i) < shape_count(shapes, n)
            && drawn_shapes(instances, shapes, n)[shape_count(shapes, i)] == (PolygonView {
            reversed: instances[i].shell.reversed,
            ..p@
        }),
    decreases n,
{
    lemma_shape_count(instances, shapes, i);
    lemma_shape_count(instances, shapes, n - 1);
    lemma_shape_count(instances, shapes, n);
    if i < n - 1 {
        law_each_instance_drawn(instances, shapes, n - 1, i);
    }
}

proof fn lemma_shape_count(instances: Seq<Instance>, shapes: Seq<Option<Polygon>>, n: int)
    ensures
        drawn_shapes(instances, shapes, n).len() == shape_count(shapes, n),
    decreases n,
{
    if n > 0 {
        lemma_shape_count(instances, shapes, n - 1);
    }
}

} // verus!

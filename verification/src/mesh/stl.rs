//! STL files.
use std::io::Cursor;
use vstd::prelude::*;

use super::bounds::Point;
use super::single::Single;
use super::triangles::{
    all_fit, finds_normals, fit, positions, triangles_of, Mesh, MeshView, Normal, Normals, Piece,
    Triangle,
};

verus! {

/// An error of the standard library's readers.
#[verifier::external_type_specification]
#[verifier::external_body]
pub struct ExIoError(std::io::Error);

/// A triangle of an STL file, with the normal that the file gives it.
#[derive(Clone, Copy, PartialEq, Eq, Structural, Debug)]
pub struct Facet {
    pub normal: Point,
    pub triangle: Triangle,
}

/// Why an STL file gives no mesh.
pub enum StlError {
    /// The file cannot be read.
    Read(std::io::Error),
    /// The file contains no triangles.
    NoTriangles,
}

/// What reading all triangles of an STL file with `stl_io::create_stl_reader` gives: the
/// triangles in order, or none when making the reader or reading a triangle fails.
pub uninterp spec fn stl_facets(bytes: Seq<u8>) -> Option<Seq<Facet>>;

/// `stl_io::create_stl_reader` on bytes in memory, read to the end. The numbers of the triangles
/// are taken as their bit patterns. The result is `stl_facets` of the bytes.
#[verifier::external_body]
fn read_stl(bytes: &[u8]) -> (r: Result<Vec<Facet>, std::io::Error>)
    ensures
        match r {
            Ok(facets) => stl_facets(bytes@) == Some(facets@),
            Err(_) => stl_facets(bytes@) is None,
        },
{
    let single = |v: &stl_io::Vertex, i: usize| Single { bits: v[i].to_bits() };
    let point = |v: stl_io::Vertex| Point { x: single(&v, 0), y: single(&v, 1), z: single(&v, 2) };
    let facet = |t: stl_io::Triangle| {
        let [a, b, c] = t.vertices.map(point);
        Facet { normal: point(t.normal), triangle: Triangle { a, b, c } }
    };
    stl_io::create_stl_reader(&mut Cursor::new(bytes))?.map(|t| t.map(facet)).collect()
}

/// Whether the normal of a triangle has to be calculated: on demand, or because it is missing.
pub open spec fn needs_normal(facet: Facet, recalc_normals: bool) -> bool {
    recalc_normals || facet.normal.spec_is_zero()
}

/// A triangle of an STL file as a piece of a mesh.
pub open spec fn facet_piece(facet: Facet, recalc_normals: bool) -> Piece {
    let n = Normal { normal: facet.normal };
    Piece {
        triangle: facet.triangle,
        normals: if needs_normal(facet, recalc_normals) {
            None
        } else {
            Some(Normals { a: n, b: n, c: n })
        },
    }
}

/// The triangles of an STL file as pieces of a mesh.
pub open spec fn facet_pieces(facets: Seq<Facet>, recalc_normals: bool) -> Seq<Piece> {
    facets.map_values(|f: Facet| facet_piece(f, recalc_normals))
}

/// The mesh of an STL file's triangles. The model had normals when none had to be calculated.
pub open spec fn is_stl_mesh<F: Fn(Triangle) -> Normal>(
    normal: F,
    facets: Seq<Facet>,
    recalc_normals: bool,
    start: Point,
    m: MeshView,
) -> bool {
    let pieces = facet_pieces(facets, recalc_normals);
    &&& m.model_had_normals == forall|i: int|
        0 <= i < facets.len() ==> !needs_normal(#[trigger] facets[i], recalc_normals)
    &&& exists|normals: Seq<Normals>| #[trigger]
        all_fit(normal, pieces, normals) && Mesh::made_of(m, start, triangles_of(pieces), normals)
}

/// Whether a result is the right one for an STL file.
pub open spec fn is_stl_load<F: Fn(Triangle) -> Normal>(
    normal: F,
    bytes: Seq<u8>,
    recalc_normals: bool,
    r: Result<Mesh, StlError>,
) -> bool {
    match r {
        Ok(mesh) => stl_facets(bytes) matches Some(facets) && facets.len() > 0 && is_stl_mesh(
            normal,
            facets,
            recalc_normals,
            facets[0].triangle.a,
            mesh@,
        ),
        Err(StlError::NoTriangles) => stl_facets(bytes) matches Some(facets) && facets.len() == 0,
        Err(StlError::Read(_)) => stl_facets(bytes) is None,
    }
}

impl Mesh {
    /// Adds a triangle of an STL file: with the normal from the file if it is provided, otherwise
    /// with a calculated one.
    pub(crate) fn process_tri<F: Fn(Triangle) -> Normal>(
        &mut self,
        facet: &Facet,
        recalc_normals: bool,
        normal: &F,
        Ghost(start): Ghost<Point>,
        Ghost(facets): Ghost<Seq<Facet>>,
    )
        requires
            finds_normals(*normal),
            is_stl_mesh(*normal, facets, recalc_normals, start, old(self)@),
        ensures
            is_stl_mesh(*normal, facets.push(*facet), recalc_normals, start, final(self)@),
            exists|n: Normal| #[trigger]
                fit(*normal, facet_piece(*facet, recalc_normals), (Normals { a: n, b: n, c: n }))
                    && final(self).normals@ == old(self).normals@ + seq![n, n, n],
    {
        let ghost before = facet_pieces(facets, recalc_normals);
        let ghost after = facet_pieces(facets.push(*facet), recalc_normals);
        let ghost known = choose|known: Seq<Normals>| #[trigger]
            all_fit(*normal, before, known) && Mesh::made_of(
                self@,
                start,
                triangles_of(before),
                known,
            );
        let ghost had_normals = self.model_had_normals;
        let calculate = recalc_normals || facet.normal.is_zero();
        let n = if calculate {
            self.model_had_normals = false;
            normal(facet.triangle)
        } else {
            Normal { normal: facet.normal }
        };
        let n = Normals { a: n, b: n, c: n };
        self.add(facet.triangle, n, Ghost(start), Ghost(triangles_of(before)), Ghost(known));
        proof {
            let piece = facet_piece(*facet, recalc_normals);
            assert(after =~= before.push(piece));
            assert(triangles_of(after) =~= triangles_of(before).push(facet.triangle));
            assert(fit(*normal, piece, n));
            assert(all_fit(*normal, after, known.push(n)));
            let more = facets.push(*facet);
            assert(more[facets.len() as int] == *facet);
            assert(calculate == needs_normal(*facet, recalc_normals));
            if forall|i: int|
                0 <= i < more.len() ==> !needs_normal(#[trigger] more[i], recalc_normals) {
                assert forall|i: int| 0 <= i < facets.len() implies !needs_normal(
                    #[trigger] facets[i],
                    recalc_normals,
                ) by {
                    assert(more[i] == facets[i]);
                }
            }
            if had_normals && !calculate {
                assert forall|i: int| 0 <= i < more.len() implies !needs_normal(
                    #[trigger] more[i],
                    recalc_normals,
                ) by {
                    if i < facets.len() {
                        assert(more[i] == facets[i]);
                    }
                }
            }
        }
    }

    /// The mesh of an STL file's triangles. There is none without triangles.
    pub fn from_facets<F: Fn(Triangle) -> Normal>(
        facets: &Vec<Facet>,
        recalc_normals: bool,
        normal: &F,
    ) -> (r: Option<Mesh>)
        requires
            finds_normals(*normal),
        ensures
            r is None <==> facets@.len() == 0,
            r matches Some(mesh) ==> is_stl_mesh(
                *normal,
                facets@,
                recalc_normals,
                facets@[0].triangle.a,
                mesh@,
            ),
    {
        if facets.len() == 0 {
            return None;
        }
        // The first corner is the starting point for finding the box.
        let start = facets[0].triangle.a;
        let mut mesh = Mesh::empty(&start, true);
        proof {
            let none = facet_pieces(facets@.take(0), recalc_normals);
            assert(none =~= Seq::empty());
            assert(triangles_of(none) =~= Seq::empty());
            assert(positions(mesh.vertices@) =~= Seq::empty());
            assert(all_fit(*normal, none, Seq::<Normals>::empty()));
        }
        for i in 0..facets.len()
            invariant
                finds_normals(*normal),
                is_stl_mesh(*normal, facets@.take(i as int), recalc_normals, start, mesh@),
        {
            let ghost done = facets@.take(i as int);
            mesh.process_tri(&facets[i], recalc_normals, normal, Ghost(start), Ghost(done));
            assert(facets@.take(i + 1) =~= done.push(facets@[i as int]));
        }
        assert(facets@.take(facets@.len() as int) =~= facets@);
        Some(mesh)
    }

    /// The mesh of an STL file.
    pub fn from_stl<F: Fn(Triangle) -> Normal>(
        bytes: &[u8],
        recalc_normals: bool,
        normal: &F,
    ) -> (r: Result<Mesh, StlError>)
        requires
            finds_normals(*normal),
        ensures
            is_stl_load(*normal, bytes@, recalc_normals, r),
    {
        match read_stl(bytes) {
            Ok(facets) => match Mesh::from_facets(&facets, recalc_normals, normal) {
                Some(mesh) => Ok(mesh),
                None => Err(StlError::NoTriangles),
            },
            Err(e) => Err(StlError::Read(e)),
        }
    }
}

} // verus!

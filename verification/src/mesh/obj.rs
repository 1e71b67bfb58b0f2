//! OBJ files.
use ahash::AHashMap;
use std::path::Path;
use tobj::{load_obj_buf, LoadOptions, Model};
use vstd::prelude::*;

use super::bounds::Point;
use super::obj_text::{all_references_fit, references_fit};
use super::single::Single;
use super::triangles::{
    all_fit, finds_normals, positions, triangles_of, Mesh, MeshView, Normal, Normals, Piece,
    Triangle,
};
use crate::text;
use crate::text::utf8_lossy;

verus! {

/// An error of the OBJ reader.
#[verifier::external_type_specification]
#[verifier::external_body]
pub struct ExObjLoadError(tobj::LoadError);

/// A mesh of an OBJ file: the coordinates of its points and normals one after the other, and the
/// points and normals that its triangles use.
pub struct ObjMesh {
    pub positions: Vec<Single>,
    pub normals: Vec<Single>,
    pub indices: Vec<u32>,
}

/// The model of an `ObjMesh`.
pub struct ObjMeshView {
    pub positions: Seq<Single>,
    pub normals: Seq<Single>,
    pub indices: Seq<u32>,
}

impl View for ObjMesh {
    type V = ObjMeshView;

    open spec fn view(&self) -> ObjMeshView {
        ObjMeshView {
            positions: self.positions@,
            normals: self.normals@,
            indices: self.indices@,
        }
    }
}

/// The models of several meshes.
pub open spec fn obj_meshes_view(meshes: Seq<ObjMesh>) -> Seq<ObjMeshView> {
    meshes.map_values(|m: ObjMesh| m@)
}

/// Why an OBJ file gives no mesh.
pub enum ObjError {
    /// The file cannot be read.
    Read(tobj::LoadError),
    /// The file has no meshes.
    EmptyModel,
    /// The first mesh has no points.
    EmptyMesh,
    /// A triangle uses a point or a normal that does not exist.
    Malformed,
    /// A face refers to a texture coordinate or a normal that no index can lead to.
    WildReference,
}

// ---------------------------------------------------------------------------
// Reading
// ---------------------------------------------------------------------------

/// What `tobj::load_obj_buf` gives for an OBJ file, with one index for the points and normals of
/// a corner, faces divided into triangles and no materials: the meshes in order, or nothing when
/// it fails.
pub uninterp spec fn obj_meshes(bytes: Seq<u8>) -> Option<Seq<ObjMeshView>>;

/// `tobj::load_obj_buf` on bytes in memory. The coordinates are taken as their bit patterns. The
/// result is `obj_meshes` of the bytes.
#[verifier::external_body]
fn read_obj(bytes: &[u8]) -> (r: Result<Vec<ObjMesh>, tobj::LoadError>)
    requires
        references_fit(utf8_lossy(bytes@)),
    ensures
        match r {
            Ok(meshes) => obj_meshes(bytes@) == Some(obj_meshes_view(meshes@)),
            Err(_) => obj_meshes(bytes@) is None,
        },
{
    let options = LoadOptions { single_index: true, triangulate: true, ..Default::default() };
    let no_materials = |_: &Path| Ok((Vec::new(), AHashMap::new()));
    let (models, _) = load_obj_buf(&mut &bytes[..], &options, no_materials)?;
    let mesh = |m: Model| ObjMesh {
        positions: m.mesh.positions.iter().map(|v| Single { bits: v.to_bits() }).collect(),
        normals: m.mesh.normals.iter().map(|v| Single { bits: v.to_bits() }).collect(),
        indices: m.mesh.indices,
    };
    Ok(models.into_iter().map(mesh).collect())
}

// ---------------------------------------------------------------------------
// The triangles of a mesh
// ---------------------------------------------------------------------------

/// The point whose coordinates stand at an index.
pub open spec fn point_at(coordinates: Seq<Single>, index: int) -> Point {
    Point {
        x: coordinates[3 * index],
        y: coordinates[3 * index + 1],
        z: coordinates[3 * index + 2],
    }
}

impl ObjMeshView {
    /// Whether the indices come in threes and lead to points, and to normals if there are any.
    pub open spec fn is_shaped(self) -> bool {
        &&& self.indices.len() % 3 == 0
        &&& forall|i: int|
            0 <= i < self.indices.len() ==> 3 * #[trigger] self.indices[i] + 2
                < self.positions.len() && (self.normals.len() > 0 ==> 3 * self.indices[i] + 2
                < self.normals.len())
    }

    /// A triangle, with its normals if the mesh has any.
    pub open spec fn piece(self, k: int) -> Piece {
        let (i, j, l) = (
            self.indices[3 * k] as int,
            self.indices[3 * k + 1] as int,
            self.indices[3 * k + 2] as int,
        );
        Piece {
            triangle: Triangle {
                a: point_at(self.positions, i),
                b: point_at(self.positions, j),
                c: point_at(self.positions, l),
            },
            normals: if self.normals.len() > 0 {
                Some(
                    Normals {
                        a: Normal { normal: point_at(self.normals, i) },
                        b: Normal { normal: point_at(self.normals, j) },
                        c: Normal { normal: point_at(self.normals, l) },
                    },
                )
            } else {
                None
            },
        }
    }

    /// The first triangles.
    pub open spec fn pieces(self, n: int) -> Seq<Piece>
        decreases n,
    {
        if n <= 0 {
            Seq::empty()
        } else {
            self.pieces(n - 1).push(self.piece(n - 1))
        }
    }
}

/// Whether the indices of every mesh lead to points and normals.
pub open spec fn are_shaped(meshes: Seq<ObjMeshView>) -> bool {
    forall|i: int| 0 <= i < meshes.len() ==> (#[trigger] meshes[i]).is_shaped()
}

/// The triangles of the first meshes.
pub open spec fn obj_pieces(meshes: Seq<ObjMeshView>, n: int) -> Seq<Piece>
    decreases n,
{
    if n <= 0 {
        Seq::empty()
    } else {
        obj_pieces(meshes, n - 1) + meshes[n - 1].pieces((meshes[n - 1].indices.len() / 3) as int)
    }
}

/// Whether a mesh is made of some triangles, with its box starting at a point.
pub open spec fn is_made_of_pieces<F: Fn(Triangle) -> Normal>(
    normal: F,
    pieces: Seq<Piece>,
    start: Point,
    m: MeshView,
) -> bool {
    exists|normals: Seq<Normals>| #[trigger]
        all_fit(normal, pieces, normals) && Mesh::made_of(m, start, triangles_of(pieces), normals)
}

/// The mesh of an OBJ file. Its box starts at the first point of the first mesh, whether a
/// triangle uses it or not.
pub open spec fn is_obj_mesh<F: Fn(Triangle) -> Normal>(
    normal: F,
    meshes: Seq<ObjMeshView>,
    m: MeshView,
) -> bool {
    &&& m.model_had_normals
    &&& is_made_of_pieces(
        normal,
        obj_pieces(meshes, meshes.len() as int),
        point_at(meshes[0].positions, 0),
        m,
    )
}

/// Whether a result is the right one for the meshes of an OBJ file.
pub open spec fn is_obj_result<F: Fn(Triangle) -> Normal>(
    normal: F,
    ms: Seq<ObjMeshView>,
    r: Result<Mesh, ObjError>,
) -> bool {
    if ms.len() == 0 {
        r matches Err(ObjError::EmptyModel)
    } else if ms[0].positions.len() < 3 {
        r matches Err(ObjError::EmptyMesh)
    } else if !are_shaped(ms) {
        r matches Err(ObjError::Malformed)
    } else {
        r matches Ok(mesh) && is_obj_mesh(normal, ms, mesh@)
    }
}

/// Reads a point.
fn point(coordinates: &Vec<Single>, index: u32) -> (r: Point)
    requires
        3 * index + 2 < coordinates@.len(),
    ensures
        r == point_at(coordinates@, index as int),
{
    assert(coordinates.len() <= usize::MAX);
    let at = 3 * (index as usize);
    Point { x: coordinates[at], y: coordinates[at + 1], z: coordinates[at + 2] }
}

impl ObjMesh {
    /// Whether the indices come in threes and lead to points, and to normals if there are any.
    fn is_shaped(&self) -> (r: bool)
        ensures
            r == self@.is_shaped(),
    {
        if self.indices.len() % 3 != 0 {
            return false;
        }
        for i in 0..self.indices.len()
            invariant
                forall|j: int|
                    0 <= j < i ==> 3 * #[trigger] self.indices@[j] + 2 < self.positions@.len() && (
                    self.normals@.len() > 0 ==> 3 * self.indices@[j] + 2 < self.normals@.len()),
        {
            let index = self.indices[i] as u64;
            if 3 * index + 2 >= self.positions.len() as u64 || (self.normals.len() > 0 && 3 * index
                + 2 >= self.normals.len() as u64) {
                assert(!self@.is_shaped()) by {
                    assert(self@.indices[i as int] == index);
                }
                return false;
            }
        }
        true
    }

    /// A triangle, with its normals if the mesh has any.
    fn piece(&self, k: usize) -> (r: (Triangle, Option<Normals>))
        requires
            self@.is_shaped(),
            k < self@.indices.len() / 3,
        ensures
            self@.piece(k as int) == (Piece { triangle: r.0, normals: r.1 }),
    {
        assert(self.indices.len() <= usize::MAX);
        let (i, j, l) = (self.indices[3 * k], self.indices[3 * k + 1], self.indices[3 * k + 2]);
        assert(self@.indices[3 * k] == i && self@.indices[3 * k + 1] == j && self@.indices[3 * k
            + 2] == l);
        let triangle = Triangle {
            a: point(&self.positions, i),
            b: point(&self.positions, j),
            c: point(&self.positions, l),
        };
        if self.normals.len() > 0 {
            let normals = Normals {
                a: Normal { normal: point(&self.normals, i) },
                b: Normal { normal: point(&self.normals, j) },
                c: Normal { normal: point(&self.normals, l) },
            };
            (triangle, Some(normals))
        } else {
            (triangle, None)
        }
    }

    /// Adds the triangles to a mesh.
    fn add_to<F: Fn(Triangle) -> Normal>(
        &self,
        mesh: &mut Mesh,
        normal: &F,
        Ghost(pieces): Ghost<Seq<Piece>>,
        Ghost(start): Ghost<Point>,
    )
        requires
            finds_normals(*normal),
            self@.is_shaped(),
            is_made_of_pieces(*normal, pieces, start, old(mesh)@),
        ensures
            is_made_of_pieces(
                *normal,
                pieces + self@.pieces((self@.indices.len() / 3) as int),
                start,
                final(mesh)@,
            ),
            final(mesh).model_had_normals == old(mesh).model_had_normals,
    {
        let count = self.indices.len() / 3;
        assert(pieces + self@.pieces(0) =~= pieces);
        for k in 0..count
            invariant
                finds_normals(*normal),
                self@.is_shaped(),
                count == self@.indices.len() / 3,
                is_made_of_pieces(*normal, pieces + self@.pieces(k as int), start, mesh@),
                mesh.model_had_normals == old(mesh).model_had_normals,
        {
            let ghost done = pieces + self@.pieces(k as int);
            let ghost known = choose|known: Seq<Normals>| #[trigger]
                all_fit(*normal, done, known) && Mesh::made_of(
                    mesh@,
                    start,
                    triangles_of(done),
                    known,
                );
            let (triangle, normals) = self.piece(k);
            let n = match normals {
                Some(normals) => normals,
                None => {
                    let n = normal(triangle);
                    Normals { a: n, b: n, c: n }
                },
            };
            mesh.add(triangle, n, Ghost(start), Ghost(triangles_of(done)), Ghost(known));
            proof {
                let more = pieces + self@.pieces(k + 1);
                assert(more =~= done.push(self@.piece(k as int)));
                assert(triangles_of(more) =~= triangles_of(done).push(triangle));
                assert(all_fit(*normal, more, known.push(n)));
            }
        }
    }
}

/// Whether a result is the right one for an OBJ file.
pub open spec fn is_obj_load<F: Fn(Triangle) -> Normal>(
    normal: F,
    bytes: Seq<u8>,
    r: Result<Mesh, ObjError>,
) -> bool {
    if references_fit(utf8_lossy(bytes)) {
        match obj_meshes(bytes) {
            Some(ms) => is_obj_result(normal, ms, r),
            None => r matches Err(ObjError::Read(_)),
        }
    } else {
        r matches Err(ObjError::WildReference)
    }
}

impl Mesh {
    /// The mesh of the meshes of an OBJ file.
    pub fn from_obj_meshes<F: Fn(Triangle) -> Normal>(meshes: &Vec<ObjMesh>, normal: &F) -> (r:
        Result<Mesh, ObjError>)
        requires
            finds_normals(*normal),
        ensures
            is_obj_result(*normal, obj_meshes_view(meshes@), r),
    {
        let ghost ms = obj_meshes_view(meshes@);
        if meshes.len() == 0 {
            return Err(ObjError::EmptyModel);
        }
        assert(ms[0] == meshes@[0]@);
        if meshes[0].positions.len() < 3 {
            return Err(ObjError::EmptyMesh);
        }
        for i in 0..meshes.len()
            invariant
                ms == obj_meshes_view(meshes@),
                ms.len() > 0,
                ms[0].positions.len() >= 3,
                forall|j: int| 0 <= j < i ==> (#[trigger] ms[j]).is_shaped(),
        {
            assert(ms[i as int] == meshes@[i as int]@);
            if !meshes[i].is_shaped() {
                assert(!ms[i as int].is_shaped());
                return Err(ObjError::Malformed);
            }
        }
        let start = point(&meshes[0].positions, 0);
        let mut mesh = Mesh::empty(&start, true);
        proof {
            let none = obj_pieces(ms, 0);
            assert(triangles_of(none) =~= Seq::empty());
            assert(positions(mesh.vertices@) =~= Seq::empty());
            assert(all_fit(*normal, none, Seq::<Normals>::empty()));
        }
        for i in 0..meshes.len()
            invariant
                finds_normals(*normal),
                ms == obj_meshes_view(meshes@),
                forall|j: int| 0 <= j < ms.len() ==> (#[trigger] ms[j]).is_shaped(),
                mesh.model_had_normals,
                is_made_of_pieces(*normal, obj_pieces(ms, i as int), start, mesh@),
        {
            assert(ms[i as int] == meshes@[i as int]@);
            meshes[i].add_to(&mut mesh, normal, Ghost(obj_pieces(ms, i as int)), Ghost(start));
        }
        Ok(mesh)
    }

    /// The mesh of an OBJ file.
    pub fn from_obj<F: Fn(Triangle) -> Normal>(
        bytes: &[u8],
        _recalc_normals: bool,
        normal: &F,
    ) -> (r: Result<Mesh, ObjError>)
        requires
            finds_normals(*normal),
        ensures
            is_obj_load(*normal, bytes@, r),
    {
        let text = text::from_utf8_lossy(bytes);
        if !all_references_fit(text.as_str()) {
            return Err(ObjError::WildReference);
        }
        match read_obj(bytes) {
            Ok(meshes) => Mesh::from_obj_meshes(&meshes, normal),
            Err(error) => Err(ObjError::Read(error)),
        }
    }
}

} // verus!

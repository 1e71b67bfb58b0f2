//! Loading of models in any format.
use ruststep::ast::Exchange;
use vstd::prelude::*;

use crate::files::{
    is_found, is_model_source, is_source_for, model_source, string_view, ModelFormat, Source,
    UnsupportedFormat,
};
use crate::mesh::obj::{is_obj_load, ObjError};
use crate::mesh::stl::{is_stl_load, StlError};
use crate::mesh::triangles::{finds_normals, Mesh, Normal, Triangle};
use crate::step::assembly::{Assembly, Placement};
use crate::step::load::{is_step_load, meshes_shells};
use crate::step::polygons::Polygon;
use crate::step::syntax::StepError;
use crate::step::walk::Instance;
use crate::three_mf::model::{Object, Transform};
use crate::three_mf::scene::{is_3mf_load, places_objects, Positions, ThreeMfError};

verus! {

/// What the loaders need of floating-point arithmetic.
pub struct Geometry<'a, P, S, K, F> {
    /// Calculates the vertices of a placed object of a 3MF file.
    pub place: &'a P,
    /// Tells whether a placement of a STEP file has no inverse.
    pub is_singular: &'a S,
    /// Meshes shells of a STEP file and places them.
    pub tessellate: &'a K,
    /// Calculates the normal of a triangle.
    pub normal: &'a F,
}

/// Why a model cannot be loaded.
pub enum ModelLoadError {
    /// The name of the file stands for no format.
    Unsupported(UnsupportedFormat),
    /// It is no STL file with triangles.
    Stl(StlError),
    /// It is no OBJ file with points.
    Obj(ObjError),
    /// It is no 3MF file with triangles.
    ThreeMf(ThreeMfError),
    /// It is no STEP file with triangles.
    Step(StepError),
}

impl<
    'a,
    P: Fn(&Object, &Vec<&Transform>) -> Positions,
    S: Fn(Placement) -> bool,
    K: Fn(&Exchange, &Assembly, &Vec<Instance>) -> Vec<Option<Polygon>>,
    F: Fn(Triangle) -> Normal,
> Geometry<'a, P, S, K, F> {
    /// Whether the functions can be called on anything, and give as much as they are asked for.
    pub open spec fn is_complete(self) -> bool {
        &&& places_objects(*self.place)
        &&& forall|p: Placement| #[trigger] call_requires(*self.is_singular, (p,))
        &&& meshes_shells(*self.tessellate)
        &&& finds_normals(*self.normal)
    }

    /// Whether a result is the one of the loader for a source.
    pub open spec fn loads(
        self,
        source: Source,
        bytes: Seq<u8>,
        recalc_normals: bool,
        r: Result<Mesh, ModelLoadError>,
    ) -> bool {
        match source {
            Source::Stdin | Source::File(ModelFormat::Stl) => match r {
                Ok(mesh) => is_stl_load(*self.normal, bytes, recalc_normals, Ok(mesh)),
                Err(ModelLoadError::Stl(e)) => is_stl_load(*self.normal, bytes, recalc_normals, Err(e)),
                Err(_) => false,
            },
            Source::File(ModelFormat::Obj) => match r {
                Ok(mesh) => is_obj_load(*self.normal, bytes, Ok(mesh)),
                Err(ModelLoadError::Obj(e)) => is_obj_load(*self.normal, bytes, Err(e)),
                Err(_) => false,
            },
            Source::File(ModelFormat::ThreeMf) => match r {
                Ok(mesh) => is_3mf_load(*self.place, *self.normal, bytes, Ok(mesh)),
                Err(ModelLoadError::ThreeMf(e)) => is_3mf_load(
                    *self.place,
                    *self.normal,
                    bytes,
                    Err(e),
                ),
                Err(_) => false,
            },
            Source::File(ModelFormat::Step) => match r {
                Ok(mesh) => is_step_load(
                    *self.is_singular,
                    *self.tessellate,
                    *self.normal,
                    bytes,
                    Ok(mesh),
                ),
                Err(ModelLoadError::Step(e)) => is_step_load(
                    *self.is_singular,
                    *self.tessellate,
                    *self.normal,
                    bytes,
                    Err(e),
                ),
                Err(_) => false,
            },
        }
    }
}

/// Whether a result is the right one for a source that a file name may stand for.
pub open spec fn is_load_of<
    'a,
    P: Fn(&Object, &Vec<&Transform>) -> Positions,
    S: Fn(Placement) -> bool,
    K: Fn(&Exchange, &Assembly, &Vec<Instance>) -> Vec<Option<Polygon>>,
    F: Fn(Triangle) -> Normal,
>(
    geometry: Geometry<'a, P, S, K, F>,
    source: Result<Source, UnsupportedFormat>,
    bytes: Seq<u8>,
    recalc_normals: bool,
    r: Result<Mesh, ModelLoadError>,
) -> bool {
    match source {
        Ok(source) => geometry.loads(source, bytes, recalc_normals, r),
        Err(unsupported) => r == Err::<Mesh, _>(ModelLoadError::Unsupported(unsupported)),
    }
}

impl Mesh {
    /// The mesh of what a source holds.
    pub fn from_source<
        'a,
        P: Fn(&Object, &Vec<&Transform>) -> Positions,
        S: Fn(Placement) -> bool,
        K: Fn(&Exchange, &Assembly, &Vec<Instance>) -> Vec<Option<Polygon>>,
        F: Fn(Triangle) -> Normal,
    >(
        source: Source,
        bytes: &[u8],
        recalc_normals: bool,
        geometry: &Geometry<'a, P, S, K, F>,
    ) -> (r: Result<Mesh, ModelLoadError>)
        requires
            geometry.is_complete(),
        ensures
            geometry.loads(source, bytes@, recalc_normals, r),
    {
        let normal = geometry.normal;
        match source {
            Source::Stdin | Source::File(ModelFormat::Stl) => match Mesh::from_stl(
                bytes,
                recalc_normals,
                normal,
            ) {
                Ok(mesh) => Ok(mesh),
                Err(error) => Err(ModelLoadError::Stl(error)),
            },
            Source::File(ModelFormat::Obj) => match Mesh::from_obj(bytes, recalc_normals, normal) {
                Ok(mesh) => Ok(mesh),
                Err(error) => Err(ModelLoadError::Obj(error)),
            },
            Source::File(ModelFormat::ThreeMf) => match Mesh::from_3mf(
                bytes,
                recalc_normals,
                geometry.place,
                normal,
            ) {
                Ok(mesh) => Ok(mesh),
                Err(error) => Err(ModelLoadError::ThreeMf(error)),
            },
            Source::File(ModelFormat::Step) => match Mesh::from_step(
                bytes,
                recalc_normals,
                geometry.is_singular,
                geometry.tessellate,
                normal,
            ) {
                Ok(mesh) => Ok(mesh),
                Err(error) => Err(ModelLoadError::Step(error)),
            },
        }
    }

    /// The mesh of a model, from the name of its file and what was read from there. `-` stands
    /// for an STL file from the standard input, and the extension of other names for the format,
    /// in upper or lower case.
    pub fn load<
        'a,
        P: Fn(&Object, &Vec<&Transform>) -> Positions,
        S: Fn(Placement) -> bool,
        K: Fn(&Exchange, &Assembly, &Vec<Instance>) -> Vec<Option<Polygon>>,
        F: Fn(Triangle) -> Normal,
    >(
        model_filename: &str,
        bytes: &[u8],
        recalc_normals: bool,
        geometry: &Geometry<'a, P, S, K, F>,
    ) -> (r: Result<Mesh, ModelLoadError>)
        requires
            geometry.is_complete(),
        ensures
            exists|source: Result<Source, UnsupportedFormat>| #[trigger]
                is_model_source(model_filename@, source) && is_load_of(
                    *geometry,
                    source,
                    bytes@,
                    recalc_normals,
                    r,
                ),
            model_filename@ != "-"@ ==> exists|
                e: Option<String>,
                source: Result<Source, UnsupportedFormat>,
            |
                #[trigger] is_found(model_filename, e) && #[trigger] is_source_for(
                    string_view(e),
                    source,
                ) && is_load_of(*geometry, source, bytes@, recalc_normals, r),
    {
        let source = model_source(model_filename);
        let ghost known = source;
        let r = match source {
            Ok(source) => Mesh::from_source(source, bytes, recalc_normals, geometry),
            Err(unsupported) => Err(ModelLoadError::Unsupported(unsupported)),
        };
        assert(is_model_source(model_filename@, known) && is_load_of(
            *geometry,
            known,
            bytes@,
            recalc_normals,
            r,
        ));
        proof {
            if model_filename@ != "-"@ {
                let e = choose|e: Option<String>| #[trigger]
                    is_found(model_filename, e) && is_source_for(string_view(e), known);
                assert(is_found(model_filename, e) && is_source_for(string_view(e), known));
            }
        }
        r
    }
}

} // verus!

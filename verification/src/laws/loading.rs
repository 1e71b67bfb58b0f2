//! What holds of loading.
use ruststep::ast::Exchange;
use vstd::prelude::*;
use vstd::utf8::is_ascii_chars;

use super::names::{has_extension, lemma_model_source};
use super::numbers::spells;
use crate::files::{
    is_found, is_model_source, is_source_for, model_format, string_view, ModelFormat, Source,
    UnsupportedFormat,
};
use crate::load::{is_load_of, Geometry, ModelLoadError};
use crate::mesh::obj::is_obj_load;
use crate::mesh::stl::is_stl_load;
use crate::mesh::triangles::{Mesh, Normal, Triangle};
use crate::step::assembly::{Assembly, Placement};
use crate::step::load::is_step_load;
use crate::step::polygons::Polygon;
use crate::step::walk::Instance;
use crate::text::lowercase;
use crate::three_mf::model::{Object, Transform};
use crate::three_mf::scene::{is_3mf_load, Positions};

verus! {

/// A file is loaded by the loader of the format that the extension of its name spells, with
/// exactly the bytes and the settings that were handed in, and its error is handed on. Another
/// extension is refused, whatever the file holds.
pub proof fn law_load<
    P: Fn(&Object, &Vec<&Transform>) -> Positions,
    S: Fn(Placement) -> bool,
    K: Fn(&Exchange, &Assembly, &Vec<Instance>) -> Vec<Option<Polygon>>,
    F: Fn(Triangle) -> Normal,
>(
    filename: &str,
    bytes: &[u8],
    recalc_normals: bool,
    geometry: &Geometry<P, S, K, F>,
    r: Result<Mesh, ModelLoadError>,
    directory: Seq<char>,
    name: Seq<char>,
    extension: Seq<char>,
)
    requires
        call_ensures(Mesh::load, (filename, bytes, recalc_normals, geometry), r),
        geometry.is_complete(),
        has_extension(filename@, directory, name, extension),
        is_ascii_chars(extension),
    ensures
        spells(extension, seq!['s', 't', 'l']) ==> match r {
            Ok(mesh) => is_stl_load(*geometry.normal, bytes@, recalc_normals, Ok(mesh)),
            Err(ModelLoadError::Stl(e)) => is_stl_load(
                *geometry.normal,
                bytes@,
                recalc_normals,
                Err(e),
            ),
            Err(_) => false,
        },
        spells(extension, seq!['o', 'b', 'j']) ==> match r {
            Ok(mesh) => is_obj_load(*geometry.normal, bytes@, Ok(mesh)),
            Err(ModelLoadError::Obj(e)) => is_obj_load(*geometry.normal, bytes@, Err(e)),
            Err(_) => false,
        },
        spells(extension, seq!['3', 'm', 'f']) ==> match r {
            Ok(mesh) => is_3mf_load(*geometry.place, *geometry.normal, bytes@, Ok(mesh)),
            Err(ModelLoadError::ThreeMf(e)) => is_3mf_load(
                *geometry.place,
                *geometry.normal,
                bytes@,
                Err(e),
            ),
            Err(_) => false,
        },
        spells(extension, seq!['s', 't', 'e', 'p']) || spells(extension, seq!['s', 't', 'p'])
            ==> match r {
            Ok(mesh) => is_step_load(
                *geometry.is_singular,
                *geometry.tessellate,
                *geometry.normal,
                bytes@,
                Ok(mesh),
            ),
            Err(ModelLoadError::Step(e)) => is_step_load(
                *geometry.is_singular,
                *geometry.tessellate,
                *geometry.normal,
                bytes@,
                Err(e),
            ),
            Err(_) => false,
        },
        r matches Err(ModelLoadError::Unsupported(e)) ==> spells(extension, e.extension@),
        !spells(extension, seq!['s', 't', 'l']) && !spells(extension, seq!['o', 'b', 'j'])
            && !spells(extension, seq!['3', 'm', 'f']) && !spells(
            extension,
            seq!['s', 't', 'e', 'p'],
        ) && !spells(extension, seq!['s', 't', 'p']) ==> r matches Err(
            ModelLoadError::Unsupported(_),
        ),
{
    let source = choose|source: Result<Source, UnsupportedFormat>| #[trigger]
        is_model_source(filename@, source) && is_load_of(
            *geometry,
            source,
            bytes@,
            recalc_normals,
            r,
        );
    lemma_model_source(filename@, source, directory, name, extension);
}

/// Whatever the system finds as the extension of a name decides what its file is loaded as.
pub proof fn law_load_found<
    P: Fn(&Object, &Vec<&Transform>) -> Positions,
    S: Fn(Placement) -> bool,
    K: Fn(&Exchange, &Assembly, &Vec<Instance>) -> Vec<Option<Polygon>>,
    F: Fn(Triangle) -> Normal,
>(
    filename: &str,
    bytes: &[u8],
    recalc_normals: bool,
    geometry: &Geometry<P, S, K, F>,
    r: Result<Mesh, ModelLoadError>,
)
    requires
        call_ensures(Mesh::load, (filename, bytes, recalc_normals, geometry), r),
        geometry.is_complete(),
        filename@ != seq!['-'],
    ensures
        exists|e: Option<String>| #[trigger]
            is_found(filename, e) && {
                let lower = lowercase(
                    match e {
                        Some(e) => e@,
                        None => Seq::empty(),
                    },
                );
                match model_format(lower) {
                    Some(format) => geometry.loads(
                        Source::File(format),
                        bytes@,
                        recalc_normals,
                        r,
                    ),
                    None => r matches Err(ModelLoadError::Unsupported(unsupported))
                        && unsupported.extension@ == lower,
                }
            },
{
    reveal_strlit("-");
    assert("-"@ =~= seq!['-']);
    let (e, source) = choose|e: Option<String>, source: Result<Source, UnsupportedFormat>|
        #[trigger] is_found(filename, e) && #[trigger] is_source_for(string_view(e), source)
            && is_load_of(*geometry, source, bytes@, recalc_normals, r);
    assert(is_found(filename, e));
}

/// What comes from the standard input is loaded as an STL file.
pub proof fn law_load_stdin<
    P: Fn(&Object, &Vec<&Transform>) -> Positions,
    S: Fn(Placement) -> bool,
    K: Fn(&Exchange, &Assembly, &Vec<Instance>) -> Vec<Option<Polygon>>,
    F: Fn(Triangle) -> Normal,
>(
    filename: &str,
    bytes: &[u8],
    recalc_normals: bool,
    geometry: &Geometry<P, S, K, F>,
    r: Result<Mesh, ModelLoadError>,
)
    requires
        call_ensures(Mesh::load, (filename, bytes, recalc_normals, geometry), r),
        geometry.is_complete(),
        filename@ == seq!['-'],
    ensures
        match r {
            Ok(mesh) => is_stl_load(*geometry.normal, bytes@, recalc_normals, Ok(mesh)),
            Err(ModelLoadError::Stl(e)) => is_stl_load(
                *geometry.normal,
                bytes@,
                recalc_normals,
                Err(e),
            ),
            Err(_) => false,
        },
{
    reveal_strlit("-");
    assert("-"@ =~= seq!['-']);
    let source = choose|source: Result<Source, UnsupportedFormat>| #[trigger]
        is_model_source(filename@, source) && is_load_of(
            *geometry,
            source,
            bytes@,
            recalc_normals,
            r,
        );
}

/// What a source holds is loaded by the loader of its format, with exactly the bytes and the
/// settings that were handed in.
pub proof fn law_from_source<
    P: Fn(&Object, &Vec<&Transform>) -> Positions,
    S: Fn(Placement) -> bool,
    K: Fn(&Exchange, &Assembly, &Vec<Instance>) -> Vec<Option<Polygon>>,
    F: Fn(Triangle) -> Normal,
>(
    source: Source,
    bytes: &[u8],
    recalc_normals: bool,
    geometry: &Geometry<P, S, K, F>,
    r: Result<Mesh, ModelLoadError>,
)
    requires
        call_ensures(Mesh::from_source, (source, bytes, recalc_normals, geometry), r),
        geometry.is_complete(),
    ensures
        match (source, r) {
            (Source::Stdin, Ok(mesh)) | (Source::File(ModelFormat::Stl), Ok(mesh)) => is_stl_load(
                *geometry.normal,
                bytes@,
                recalc_normals,
                Ok(mesh),
            ),
            (Source::Stdin, Err(ModelLoadError::Stl(e))) | (
                Source::File(ModelFormat::Stl),
                Err(ModelLoadError::Stl(e)),
            ) => is_stl_load(*geometry.normal, bytes@, recalc_normals, Err(e)),
            (Source::File(ModelFormat::Obj), Ok(mesh)) => is_obj_load(
                *geometry.normal,
                bytes@,
                Ok(mesh),
            ),
            (Source::File(ModelFormat::Obj), Err(ModelLoadError::Obj(e))) => is_obj_load(
                *geometry.normal,
                bytes@,
                Err(e),
            ),
            (Source::File(ModelFormat::ThreeMf), Ok(mesh)) => is_3mf_load(
                *geometry.place,
                *geometry.normal,
                bytes@,
                Ok(mesh),
            ),
            (Source::File(ModelFormat::ThreeMf), Err(ModelLoadError::ThreeMf(e))) => is_3mf_load(
                *geometry.place,
                *geometry.normal,
                bytes@,
                Err(e),
            ),
            (Source::File(ModelFormat::Step), Ok(mesh)) => is_step_load(
                *geometry.is_singular,
                *geometry.tessellate,
                *geometry.normal,
                bytes@,
                Ok(mesh),
            ),
            (Source::File(ModelFormat::Step), Err(ModelLoadError::Step(e))) => is_step_load(
                *geometry.is_singular,
                *geometry.tessellate,
                *geometry.normal,
                bytes@,
                Err(e),
            ),
            _ => false,
        },
{
}

} // verus!

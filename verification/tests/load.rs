use ruststep::ast::Exchange;
use stl_thumb::load::{Geometry, ModelLoadError};
use stl_thumb::files::{ModelFormat, Source};
use stl_thumb::mesh::bounds::Point;
use stl_thumb::mesh::obj::ObjError;
use stl_thumb::mesh::single::Single;
use stl_thumb::mesh::stl::StlError;
use stl_thumb::mesh::triangles::{Mesh, Normal, Triangle};
use stl_thumb::step::assembly::{Assembly, Placement};
use stl_thumb::step::polygons::{Corner, Polygon, PolygonFace};
use stl_thumb::step::syntax::StepError;
use stl_thumb::step::walk::Instance;
use stl_thumb::three_mf::model::{Object, Transform};
use stl_thumb::three_mf::package::PackageError;
use stl_thumb::three_mf::scene::{Positions, ThreeMfError};

const STL: &str = "solid a\nfacet normal 0 0 1\nouter loop\nvertex 1 0 0\nvertex 2 0 0\n\
                   vertex 3 1 0\nendloop\nendfacet\nendsolid a\n";
const OBJ: &str = "v 4 0 0\nv 5 0 0\nv 6 1 0\nf 1 2 3\n";
const STEP: &str = "ISO-10303-21;HEADER;A();ENDSEC;DATA;#7=OPEN_SHELL('',(#9));ENDSEC;\
                    END-ISO-10303-21;";

fn point(x: f32) -> Point {
    let zero = Single { bits: 0 };
    Point { x: Single { bits: x.to_bits() }, y: zero, z: zero }
}

fn place(object: &Object, _: &Vec<&Transform>) -> Positions {
    Positions { vertices: object.vertices.iter().map(|_| point(0.0)).collect(), mirrored: false }
}

fn is_singular(_: Placement) -> bool {
    false
}

fn tessellate(_: &Exchange, _: &Assembly, instances: &Vec<Instance>) -> Vec<Option<Polygon>> {
    let corner = |position| Corner { position, normal: None };
    instances
        .iter()
        .map(|i| {
            Some(Polygon {
                positions: vec![point(i.shell.id as f32), point(8.0), point(9.0)],
                normals: Vec::new(),
                faces: vec![PolygonFace { a: corner(0), b: corner(1), c: corner(2) }],
                mirrored: false,
                reversed: true,
            })
        })
        .collect()
}

fn normal(_: Triangle) -> Normal {
    Normal { normal: point(-1.0) }
}

fn xs(mesh: &Mesh) -> Vec<f32> {
    mesh.vertices.iter().map(|v| f32::from_bits(v.position.x.bits)).collect()
}

fn load(filename: &str, text: &str, recalc_normals: bool) -> Result<Mesh, ModelLoadError> {
    let geometry = Geometry {
        place: &place,
        is_singular: &is_singular,
        tessellate: &tessellate,
        normal: &normal,
    };
    Mesh::load(filename, text.as_bytes(), recalc_normals, &geometry)
}

#[test]
fn each_format_has_its_loader() {
    for filename in ["-", "a.stl", "dir/a.STL", "a:x.Stl"] {
        assert_eq!(xs(&load(filename, STL, false).ok().unwrap()), [1.0, 2.0, 3.0]);
        let error = load(filename, OBJ, false);
        assert!(matches!(error, Err(ModelLoadError::Stl(StlError::Read(_)))), "{}", filename);
    }
    assert_eq!(xs(&load("a.obj", OBJ, false).ok().unwrap()), [4.0, 5.0, 6.0]);
    assert!(matches!(
        load("a.OBJ", "", false),
        Err(ModelLoadError::Obj(ObjError::EmptyMesh))
    ));
    for filename in ["a.step", "a.stp", "mount.STP"] {
        assert_eq!(xs(&load(filename, STEP, false).ok().unwrap()), [7.0, 8.0, 9.0]);
    }
    assert!(matches!(
        load("a.stp", STL, false),
        Err(ModelLoadError::Step(StepError::Parse { .. }))
    ));
    assert!(matches!(
        load("a.3MF", STL, false),
        Err(ModelLoadError::ThreeMf(ThreeMfError::Package(PackageError::Archive(_))))
    ));
    match load("a.ply", STL, false) {
        Err(ModelLoadError::Unsupported(u)) => assert_eq!(u.extension, "ply"),
        _ => panic!("a format that is not supported"),
    }
}

#[test]
fn normals_are_calculated_again_when_asked_for() {
    let x = |recalc| {
        let mesh = load("-", STL, recalc).ok().unwrap();
        (f32::from_bits(mesh.normals[0].normal.x.bits), mesh.model_had_normals)
    };
    assert_eq!(x(false), (0.0, true));
    assert_eq!(x(true), (-1.0, false));
}

#[test]
fn sources_have_the_loaders_of_their_formats() {
    let geometry = Geometry {
        place: &place,
        is_singular: &is_singular,
        tessellate: &tessellate,
        normal: &normal,
    };
    let load = |source, text: &str| {
        xs(&Mesh::from_source(source, text.as_bytes(), false, &geometry).ok().unwrap())
    };
    assert_eq!(load(Source::Stdin, STL), [1.0, 2.0, 3.0]);
    assert_eq!(load(Source::File(ModelFormat::Stl), STL), [1.0, 2.0, 3.0]);
    assert_eq!(load(Source::File(ModelFormat::Obj), OBJ), [4.0, 5.0, 6.0]);
    assert_eq!(load(Source::File(ModelFormat::Step), STEP), [7.0, 8.0, 9.0]);
}

use std::io::{Cursor, Write};
use stl_thumb::mesh::bounds::Point;
use stl_thumb::mesh::single::Single;
use stl_thumb::mesh::triangles::{Mesh, Normal, Triangle};
use stl_thumb::three_mf::attributes::ModelError;
use stl_thumb::three_mf::model::{
    parse_transform, Face, ModelFile, Object, Progress, Transform,
};
use stl_thumb::three_mf::package::{
    read_package, relationship_root, File, Package, PackageError,
};
use stl_thumb::three_mf::scene::{
    add_object, placed_objects, scene_mesh, PlacedObject, Positions, SceneError, ThreeMfError,
};
use stl_thumb::three_mf::xml::{Attribute, Element, XmlEvent};
use zip::write::SimpleFileOptions;
use zip::ZipWriter;

// ---------------------------------------------------------------------------
// Archives and models
// ---------------------------------------------------------------------------

fn archive(files: &[(&str, &str)]) -> Vec<u8> {
    let files: Vec<(&str, &[u8])> = files.iter().map(|(n, c)| (*n, c.as_bytes())).collect();
    archive_of_bytes(&files)
}

fn archive_of_bytes(files: &[(&str, &[u8])]) -> Vec<u8> {
    let mut zip = ZipWriter::new(Cursor::new(Vec::new()));
    for (name, content) in files {
        zip.start_file(*name, SimpleFileOptions::default()).unwrap();
        zip.write_all(content).unwrap();
    }
    zip.finish().unwrap().into_inner()
}

/// Gives a file of an archive the wrong checksum, so that it cannot be read to its end.
fn damage(archive: &mut [u8], file: usize) {
    let directory: Vec<usize> =
        (0..archive.len() - 4).filter(|i| archive[*i..].starts_with(b"PK\x01\x02")).collect();
    archive[directory[file] + 16] ^= 1;
}

/// A cube from the origin to (1, 1, 1).
fn cube(id: u64) -> String {
    let mut text = format!("<object id=\"{}\" type=\"model\"><mesh><vertices>", id);
    for (x, y, z) in [
        (0, 0, 0),
        (1, 0, 0),
        (1, 1, 0),
        (0, 1, 0),
        (0, 0, 1),
        (1, 0, 1),
        (1, 1, 1),
        (0, 1, 1),
    ] {
        text += &format!("<vertex x=\"{}\" y=\"{}\" z=\"{}\"/>", x, y, z);
    }
    text += "</vertices><triangles>";
    for (a, b, c) in [
        (0, 2, 1),
        (0, 3, 2),
        (4, 5, 6),
        (4, 6, 7),
        (0, 1, 5),
        (0, 5, 4),
        (1, 2, 6),
        (1, 6, 5),
        (2, 3, 7),
        (2, 7, 6),
        (3, 0, 4),
        (3, 4, 7),
    ] {
        text += &format!("<triangle v1=\"{}\" v2=\"{}\" v3=\"{}\"/>", a, b, c);
    }
    text + "</triangles></mesh></object>"
}

fn model(resources: &str, build: &str) -> String {
    format!(
        "<?xml version=\"1.0\"?><model unit=\"millimeter\"><resources>{}</resources>\
         <build>{}</build></model>",
        resources, build
    )
}

fn parsed(text: &str) -> ModelFile {
    let package = read_package(&archive(&[("m.model", text)])).ok().unwrap();
    package.files.into_iter().next().unwrap().model
}

fn model_error(text: &str) -> ModelError {
    model_error_of_bytes(text.as_bytes())
}

fn model_error_of_bytes(text: &[u8]) -> ModelError {
    match read_package(&archive_of_bytes(&[("m.model", text)])) {
        Err(PackageError::Model { path, error }) => {
            assert_eq!(path, "m.model");
            error
        }
        _ => panic!("not a bad model file"),
    }
}

fn package_error(files: &[(&str, &str)]) -> PackageError {
    read_package(&archive(files)).err().unwrap()
}

// ---------------------------------------------------------------------------
// Placing with real numbers
// ---------------------------------------------------------------------------

type Matrix = [[f64; 3]; 4];

fn matrix(t: &Transform) -> Matrix {
    match t {
        Transform::Identity => [[1.0, 0.0, 0.0], [0.0, 1.0, 0.0], [0.0, 0.0, 1.0], [0.0; 3]],
        Transform::Matrix(m) => {
            let m: Vec<f64> = m.iter().map(|v| v.text().parse().unwrap()).collect();
            let row = |i: usize| [m[3 * i], m[3 * i + 1], m[3 * i + 2]];
            [row(0), row(1), row(2), row(3)]
        }
    }
}

/// Row vectors times a matrix.
fn apply(p: [f64; 3], m: &Matrix) -> [f64; 3] {
    let mut r = m[3];
    for i in 0..3 {
        for j in 0..3 {
            r[j] += p[i] * m[i][j];
        }
    }
    r
}

fn determinant(m: &Matrix) -> f64 {
    m[0][0] * (m[1][1] * m[2][2] - m[1][2] * m[2][1])
        - m[0][1] * (m[1][0] * m[2][2] - m[1][2] * m[2][0])
        + m[0][2] * (m[1][0] * m[2][1] - m[1][1] * m[2][0])
}

fn place(object: &Object, transforms: &Vec<&Transform>) -> Positions {
    let matrices: Vec<Matrix> = transforms.iter().map(|t| matrix(t)).collect();
    let vertices = object
        .vertices
        .iter()
        .map(|v| {
            let mut p = [&v.x, &v.y, &v.z].map(|c| c.text().parse::<f64>().unwrap());
            // The innermost transform comes last in the list.
            for m in matrices.iter().rev() {
                p = apply(p, m);
            }
            let [x, y, z] = p.map(|c| Single { bits: (c as f32).to_bits() });
            Point { x, y, z }
        })
        .collect();
    let mirrored = matrices.iter().map(determinant).product::<f64>() < 0.0;
    Positions { vertices, mirrored }
}

fn zero(_: Triangle) -> Normal {
    let zero = Single { bits: 0 };
    Normal { normal: Point { x: zero, y: zero, z: zero } }
}

fn values(p: Point) -> [f32; 3] {
    [p.x, p.y, p.z].map(|s| f32::from_bits(s.bits))
}

/// Enclosed volume, which is only positive when triangles wind counter-clockwise from outside.
fn signed_volume(mesh: &Mesh) -> f32 {
    mesh.vertices
        .chunks(3)
        .map(|t| {
            let [a, b, c] = [t[0], t[1], t[2]].map(|v| values(v.position));
            let cross = [
                b[1] * c[2] - b[2] * c[1],
                b[2] * c[0] - b[0] * c[2],
                b[0] * c[1] - b[1] * c[0],
            ];
            (a[0] * cross[0] + a[1] * cross[1] + a[2] * cross[2]) / 6.0
        })
        .sum()
}

fn load(bytes: &[u8]) -> Result<Mesh, ThreeMfError> {
    Mesh::from_3mf(bytes, false, &place, &zero)
}

// ---------------------------------------------------------------------------
// Whole files
// ---------------------------------------------------------------------------

#[test]
fn components_and_transforms_place_six_cubes() {
    let pair = "<object id=\"2\"><components><component objectid=\"1\"/>\
                <component objectid=\"1\" transform=\"1 0 0 0 1 0 0 0 1 3 0 0\"/></components></object>";
    let root = model(
        &format!("{}{}", cube(1), pair),
        "<item objectid=\"2\"/>\
         <item objectid=\"2\" transform=\"1 0 0 0 1 0 0 0 1 0 5 0\"/>\
         <item objectid=\"2\" transform=\"-1 0 0 0 1 0 0 0 1 1 2 0\"/>",
    );
    let mesh = load(&archive(&[("3D/3dmodel.model", &root)])).ok().unwrap();
    assert_eq!(mesh.vertices.len(), 6 * 12 * 3);
    assert_eq!(mesh.normals.len(), mesh.vertices.len());
    assert_eq!(values(mesh.bounds.min), [-3.0, 0.0, 0.0]);
    assert_eq!(values(mesh.bounds.max), [4.0, 6.0, 1.0]);
    // A mirrored cube with the wrong winding would subtract its volume instead.
    assert!((signed_volume(&mesh) - 6.0).abs() < 0.001);
    assert!(!mesh.model_had_normals);
}

#[test]
fn objects_in_other_files_are_found_by_their_paths() {
    let root = model(
        "<object id=\"8\"><components>\
         <component p:path=\"/3D/Objects/Object_1.model\" objectid=\"1\" \
         transform=\"2 0 0 0 2 0 0 0 2 0 0 0\"/></components></object>",
        "<item objectid=\"8\" transform=\"1 0 0 0 1 0 0 0 1 10 10 10\"/>",
    );
    let other = model(&cube(1), "");
    let rels = "<Relationships><Relationship Target=\"/3D/3dmodel.model\" Id=\"rel-1\" \
                Type=\"http://schemas.microsoft.com/3dmanufacturing/2013/01/3dmodel\"/></Relationships>";
    let mesh = load(&archive(&[
        ("[Content_Types].xml", "<Types/>"),
        ("_rels/.rels", rels),
        ("3D/Objects/object_1.model", &other),
        ("3D/3dmodel.model", &root),
    ]))
    .ok()
    .unwrap();
    assert_eq!(mesh.vertices.len(), 12 * 3);
    assert_eq!(values(mesh.bounds.min), [10.0, 10.0, 10.0]);
    assert_eq!(values(mesh.bounds.max), [12.0, 12.0, 12.0]);
    assert!((signed_volume(&mesh) - 8.0).abs() < 0.001);
}

#[test]
fn without_build_items_every_object_is_shown() {
    let root = model(&format!("{}{}", cube(1), cube(7)), "");
    let mesh = load(&archive(&[("3D/3dmodel.model", &root)])).ok().unwrap();
    assert_eq!(mesh.vertices.len(), 2 * 12 * 3);
}

#[test]
fn objects_that_do_not_exist_are_left_out() {
    let root = model(&cube(1), "<item objectid=\"99\"/><item path=\"/none.model\" objectid=\"1\"/>");
    assert!(matches!(
        load(&archive(&[("3D/3dmodel.model", &root)])),
        Err(ThreeMfError::NoTriangles)
    ));
}

#[test]
fn cycles_and_missing_vertices_are_refused() {
    let knot = "<object id=\"1\"><components><component objectid=\"2\"/></components></object>\
                <object id=\"2\"><components><component objectid=\"1\"/></components></object>";
    let root = model(knot, "<item objectid=\"1\"/>");
    assert!(matches!(
        load(&archive(&[("a.model", &root)])),
        Err(ThreeMfError::Scene(SceneError::TooDeep))
    ));
    let torn = "<object id=\"1\"><mesh><vertices><vertex x=\"0\" y=\"0\" z=\"0\"/></vertices>\
                <triangles><triangle v1=\"0\" v2=\"0\" v3=\"1\"/></triangles></mesh></object>";
    let root = model(torn, "<item objectid=\"1\"/>");
    assert!(matches!(
        load(&archive(&[("a.model", &root)])),
        Err(ThreeMfError::Scene(SceneError::MissingVertex))
    ));
}

#[test]
fn components_may_be_nested_as_deeply_as_the_limit() {
    let chain = |length: u64| {
        let mut objects = cube(0);
        for id in 1..=length {
            objects += &format!(
                "<object id=\"{}\"><components><component objectid=\"{}\"/></components></object>",
                id,
                id - 1
            );
        }
        archive(&[("a.model", &model(&objects, &format!("<item objectid=\"{}\"/>", length)))])
    };
    assert_eq!(load(&chain(32)).ok().unwrap().vertices.len(), 36);
    assert!(matches!(load(&chain(33)), Err(ThreeMfError::Scene(SceneError::TooDeep))));
    let bytes = chain(32);
    let package = read_package(&bytes).ok().unwrap();
    let placed = placed_objects(&package).ok().unwrap();
    assert_eq!(placed.len(), 33);
    assert_eq!(placed[32].transforms.len(), 33);
}

// ---------------------------------------------------------------------------
// Packages
// ---------------------------------------------------------------------------

const ROOT: &str = "<Relationships><Relationship Type=\"x/3dmodel\" Target=\"/B.model\"/></Relationships>";

#[test]
fn the_relationships_name_the_root_model() {
    let a = model(&cube(1), "");
    let b = model(&cube(2), "");
    let files = [("_rels/.rels", ROOT), ("A.model", a.as_str()), ("b.MODEL", b.as_str())];
    let package = read_package(&archive(&files)).ok().unwrap();
    assert_eq!(package.files.len(), 2);
    assert_eq!(package.files[package.root].path, "b.model");
    assert_eq!(package.files[package.root].model.ids, [2]);
}

#[test]
fn without_relationships_the_root_model_is_in_the_standard_place_or_alone() {
    let text = model(&cube(1), "");
    let named = |files: &[(&str, &str)]| {
        let package = read_package(&archive(files)).ok().unwrap();
        package.files[package.root].path.clone()
    };
    assert_eq!(named(&[("a.model", &text), ("3D/3DModel.model", &text)]), "3d/3dmodel.model");
    assert_eq!(named(&[("only.model", &text)]), "only.model");
    // Relationships that lead nowhere do not count.
    let other = "<R><Relationship Type=\"x/thumbnail\" Target=\"/a.model\"/>\
                 <Relationship Type=\"x/3dmodel\" Target=\"/c.model\"/>\
                 <Relationship Type=\"x/3dmodel\"/></R>";
    let files = [("_rels/.rels", other), ("a.model", &text), ("3D/3dmodel.model", &text)];
    assert_eq!(named(&files), "3d/3dmodel.model");
    assert!(matches!(
        package_error(&[("a.model", &text), ("b.model", &text)]),
        PackageError::NoRoot
    ));
    assert!(matches!(package_error(&[("readme.txt", "")]), PackageError::NoRoot));
}

#[test]
fn bad_packages() {
    assert!(matches!(read_package(b"no archive"), Err(PackageError::Archive(_))));
    match package_error(&[("3D/A.model", "<object/>")]) {
        PackageError::Model { path, error: ModelError::Missing { element, attribute } } => {
            assert_eq!(path, "3d/a.model");
            assert_eq!(element, b"object");
            assert_eq!(attribute, "id");
        }
        _ => panic!("another error"),
    }
    let text = model("", "");
    let torn = [("_rels/.rels", "<a></b>"), ("3D/3dmodel.model", &text)];
    assert!(matches!(
        package_error(&torn),
        PackageError::Relationships(ModelError::Xml(_))
    ));
    let unclear = [("_rels/.rels", "<Relationship Type/>"), ("3D/3dmodel.model", &text)];
    assert!(matches!(
        package_error(&unclear),
        PackageError::Relationships(ModelError::Attribute(_))
    ));
    // An encrypted file cannot be opened.
    let mut locked = archive(&[("a.model", &text)]);
    let directory = locked.windows(4).position(|w| w == b"PK\x01\x02").unwrap();
    locked[directory + 8] |= 1;
    assert!(matches!(read_package(&locked), Err(PackageError::Entry(_))));
}

#[test]
fn damage_behind_a_fault_is_not_met() {
    let damaged = |text: &str| {
        let mut bytes = archive(&[("a.model", text)]);
        damage(&mut bytes, 0);
        match read_package(&bytes) {
            Err(PackageError::Model { path, error }) => {
                assert_eq!(path, "a.model");
                error
            }
            _ => panic!("another result"),
        }
    };
    let is_failure = |text: &str| matches!(damaged(text), ModelError::Xml(quick_xml::Error::Io(_)));
    assert!(is_failure(&model(&cube(1), "")));
    // A tag that the damage cuts off is not what is wrong.
    assert!(is_failure("<model><a"));
    assert!(is_failure("<model>&am"));
    // What comes before the damage is.
    assert!(matches!(damaged("<object/>"), ModelError::Missing { .. }));
    assert!(matches!(damaged("<object id=\"x\"/>"), ModelError::Invalid { .. }));
    assert!(matches!(
        damaged("<a></b>"),
        ModelError::Xml(quick_xml::Error::IllFormed(_))
    ));
}

#[test]
fn a_relationship_before_the_damage_is_enough() {
    let text = model("", "");
    let damaged = |rels: &str| {
        let files = [("_rels/.rels", rels), ("3d/3dmodel.model", &text), ("b.model", &text)];
        let mut bytes = archive(&files);
        damage(&mut bytes, 0);
        read_package(&bytes)
    };
    let package = damaged(ROOT).ok().unwrap();
    assert_eq!(package.files[package.root].path, "b.model");
    for rels in ["<a/>", "<a", ""] {
        assert!(matches!(
            damaged(rels),
            Err(PackageError::Relationships(ModelError::Xml(quick_xml::Error::Io(_))))
        ));
    }
    assert!(matches!(
        damaged("<Relationship Type/>"),
        Err(PackageError::Relationships(ModelError::Attribute(_)))
    ));
}

fn element(name: &str, attributes: &[(&str, &str)]) -> Element {
    let attribute = |(name, value): &(&str, &str)| {
        Ok(Attribute { name: name.as_bytes().to_vec(), value: value.as_bytes().to_vec() })
    };
    Element {
        name: name.as_bytes().to_vec(),
        attributes: attributes.iter().map(attribute).collect(),
    }
}

#[test]
fn relationships_lead_to_files() {
    let files = vec![File { path: "a.model".to_string(), model: parsed("<model/>") }];
    let root = |attributes: &[(&str, &str)]| {
        relationship_root(&files, &element("Relationship", attributes)).ok().unwrap()
    };
    assert_eq!(root(&[("Type", "x/3dmodel"), ("Target", "/A.model")]), Some(0));
    assert_eq!(root(&[("Type", "x/3dmodels"), ("Target", "/A.model")]), None);
    assert_eq!(root(&[("Type", "x/3dmodel"), ("Target", "/B.model")]), None);
    assert_eq!(root(&[("Target", "/A.model")]), None);
}

#[test]
fn a_later_file_with_the_same_path_counts() {
    let [a, b, c] = [1, 2, 3].map(|id| model(&cube(id), ""));
    let files = [("/3D/3dmodel.model", a.as_str()), ("b.model", &b), ("3d/3DMODEL.model", &c)];
    let package = read_package(&archive(&files)).ok().unwrap();
    assert_eq!(package.files.len(), 2);
    assert_eq!(package.files[0].path, "3d/3dmodel.model");
    assert_eq!(package.files[0].model.ids, [3]);
    assert_eq!(package.root, 0);
}

// ---------------------------------------------------------------------------
// Model files
// ---------------------------------------------------------------------------

#[test]
fn model_files_hold_objects_and_items() {
    let text = model(
        &format!("{}<object id=\" +5 \"/>", cube(3)),
        "<item objectid=\"3\" path=\"/X.model\" transform=\" 1 0 0\n0 1 0\t0 0 1e0 -.5 +2. 3 \"/>",
    );
    let m = parsed(&text);
    assert_eq!(m.ids, [3, 5]);
    assert_eq!(m.objects[&3].vertices.len(), 8);
    assert_eq!(m.objects[&3].triangles[0], Face { a: 0, b: 2, c: 1 });
    assert_eq!(m.objects[&5].vertices.len(), 0);
    assert_eq!(m.build.len(), 1);
    assert_eq!(m.build[0].objectid, 3);
    assert_eq!(m.build[0].path.as_deref(), Some("x.model"));
    match &m.build[0].transform {
        Transform::Matrix(numbers) => {
            let texts: Vec<&str> = numbers.iter().map(|n| n.text()).collect();
            assert_eq!(
                texts,
                ["1", "0", "0", "0", "1", "0", "0", "0", "1e0", "-.5", "+2.", "3"]
            );
        }
        Transform::Identity => panic!("no transform"),
    }
}

#[test]
fn elements_outside_their_place_are_ignored() {
    let m = parsed(
        "<model><vertex x=\"bad\"/><item objectid=\"bad\"/><component objectid=\"bad\"/>\
         <object id=\"1\"><vertex/><triangle/><item/>\
         <m:mesh><p:vertex x=\"1\" y=\"2\" z=\"3\"/></m:mesh><vertex/></object>\
         <mesh><vertex/></mesh><build/><item/></model>",
    );
    assert_eq!(m.ids, [1]);
    assert_eq!(m.objects[&1].vertices.len(), 1);
    assert_eq!(m.objects[&1].vertices[0].y.text(), "2");
    assert!(m.build.is_empty());
}

#[test]
fn a_later_object_with_the_same_id_counts() {
    let m = parsed(&format!("<r>{}<object id=\"1\"/>{}<object id=\"2\">", cube(1), cube(3)));
    // The last object is never finished.
    assert_eq!(m.ids, [1, 3]);
    assert_eq!(m.objects[&1].vertices.len(), 0);
}

#[test]
fn bad_model_files() {
    assert!(matches!(model_error("<a"), ModelError::Xml(_)));
    assert!(matches!(model_error("<a></b>"), ModelError::Xml(_)));
    assert!(matches!(model_error("<object id/>"), ModelError::Attribute(_)));
    assert!(matches!(model_error("<object id=\"1\" id=\"2\"/>"), ModelError::Attribute(_)));
    match model_error("<object id=\"-1\"/>") {
        ModelError::Invalid { element, attribute, value } => {
            assert_eq!(element, b"object");
            assert_eq!(attribute, "id");
            assert_eq!(value, b"-1");
        }
        _ => panic!("another error"),
    }
    let inside = |element: &str| model_error(&format!("<object id=\"1\"><mesh>{}", element));
    match inside("<vertex x=\"1\" z=\"1\"/>") {
        ModelError::Missing { element, attribute } => {
            assert_eq!(element, b"vertex");
            assert_eq!(attribute, "y");
        }
        _ => panic!("another error"),
    }
    assert!(matches!(
        inside("<vertex x=\"1\" y=\"1,5\" z=\"1\"/>"),
        ModelError::Invalid { .. }
    ));
    assert!(matches!(
        inside("<triangle v1=\"0\" v2=\"1.0\" v3=\"2\"/>"),
        ModelError::Invalid { .. }
    ));
    assert!(matches!(
        model_error("<object id=\"18446744073709551616\"/>"),
        ModelError::Invalid { .. }
    ));
    match model_error("<build><item objectid=\"1\" transform=\"1 2 3\"/>") {
        ModelError::Transform { text } => assert_eq!(text, "1 2 3"),
        _ => panic!("another error"),
    }
    let latin = b"<build><item objectid=\"1\" path=\"\xe4\"/></build>";
    let error = model_error_of_bytes(latin);
    assert!(matches!(error, ModelError::Text { value } if value == [0xe4]));
    assert_eq!(parsed("<object id=\"18446744073709551615\"/>").ids, [u64::MAX]);
}

#[test]
fn transforms_are_twelve_numbers() {
    assert!(parse_transform("1 2 3 4 5 6 7 8 9 10 11 12").is_some());
    assert!(parse_transform("1 2 3 4 5 6 7 8 9 10 11").is_none());
    assert!(parse_transform("1 2 3 4 5 6 7 8 9 10 11 12 13").is_none());
    assert!(parse_transform("1 2 3 4 5 6 7 8 9 10 11 x").is_none());
    assert!(parse_transform("").is_none());
}

#[test]
fn elements_build_up_a_model_file() {
    let mut progress = Progress::new();
    assert!(progress.open(&element("object", &[("id", "4")]), false).is_ok());
    assert!(progress.open(&element("mesh", &[]), false).is_ok());
    let vertex = element("vertex", &[("z", "3"), ("y", "2"), ("x", "1"), ("x", " 9 ")]);
    assert!(progress.open(&vertex, true).is_ok());
    progress.close(&b"mesh".to_vec());
    assert!(progress.open(&element("vertex", &[]), true).is_ok());
    assert!(progress.open(&element("component", &[("objectid", "6")]), true).is_ok());
    progress.close(&b"object".to_vec());
    assert!(matches!(
        progress.open(&element("object", &[]), true),
        Err(ModelError::Missing { .. })
    ));
    let m = progress.finish();
    assert_eq!(m.ids, [4]);
    assert_eq!(m.objects[&4].vertices[0].x.text(), "9");
    assert_eq!(m.objects[&4].components[0].objectid, 6);
}

#[test]
fn events_lead_to_a_model_file() {
    let mut progress = Progress::new();
    let object = XmlEvent::Open { element: element("object", &[("id", "4")]), empty: false };
    assert!(matches!(progress.advance(Ok(object)), Ok(false)));
    assert!(matches!(progress.advance(Ok(XmlEvent::Other)), Ok(false)));
    let close = XmlEvent::Close { name: b"object".to_vec() };
    assert!(matches!(progress.advance(Ok(close)), Ok(false)));
    assert!(matches!(progress.advance(Ok(XmlEvent::End)), Ok(true)));
    let failure = quick_xml::Error::from(std::io::Error::from(std::io::ErrorKind::InvalidData));
    assert!(matches!(progress.advance(Err(failure)), Err(ModelError::Xml(_))));
    let object = XmlEvent::Open { element: element("object", &[]), empty: false };
    assert!(matches!(progress.advance(Ok(object)), Err(ModelError::Missing { .. })));
    assert_eq!(progress.finish().ids, [4]);
}

// ---------------------------------------------------------------------------
// Scenes
// ---------------------------------------------------------------------------

#[test]
fn placed_objects_carry_their_transforms() {
    let root = parsed(&model(
        "<object id=\"2\"><components><component objectid=\"1\" \
         transform=\"2 0 0 0 2 0 0 0 2 0 0 0\"/></components></object>\
         <object id=\"1\"/>",
        "<item objectid=\"2\" transform=\"3 0 0 0 3 0 0 0 3 0 0 0\"/><item objectid=\"1\"/>",
    ));
    let package = Package { files: vec![File { path: "r".to_string(), model: root }], root: 0 };
    let placed = placed_objects(&package).ok().unwrap();
    let factors = |p: &PlacedObject| -> Vec<f64> {
        p.transforms.iter().map(|t| matrix(t)[0][0]).collect()
    };
    let all: Vec<Vec<f64>> = placed.iter().map(factors).collect();
    assert_eq!(all, [vec![3.0], vec![3.0, 2.0], vec![1.0]]);
}

#[test]
fn mirrored_objects_have_their_triangles_turned() {
    let point = |v: f32| {
        let v = Single { bits: v.to_bits() };
        Point { x: v, y: v, z: v }
    };
    let whole = parsed(
        "<object id=\"1\"><mesh><vertex x=\"0\" y=\"0\" z=\"0\"/><vertex x=\"1\" y=\"1\" z=\"1\"/>\
         <vertex x=\"2\" y=\"2\" z=\"2\"/><triangle v1=\"0\" v2=\"1\" v3=\"2\"/></mesh></object>",
    );
    let object = &whole.objects[&1];
    let placed = vec![PlacedObject { object, transforms: Vec::new(), triangles: 1 }];
    let corners = |mirrored: bool| {
        let vertices = vec![point(0.0), point(1.0), point(2.0)];
        let mesh = scene_mesh(&placed, &vec![Positions { vertices, mirrored }], &zero).unwrap();
        mesh.vertices.iter().map(|v| values(v.position)[0]).collect::<Vec<f32>>()
    };
    assert_eq!(corners(false), [0.0, 1.0, 2.0]);
    assert_eq!(corners(true), [0.0, 2.0, 1.0]);
}

#[test]
fn objects_add_their_own_triangles_and_then_those_of_their_components() {
    let mesh = |x: u32| {
        format!(
            "<mesh><vertex x=\"{}\" y=\"0\" z=\"0\"/><vertex x=\"{}\" y=\"1\" z=\"0\"/>\
             <vertex x=\"{}\" y=\"0\" z=\"1\"/><triangle v1=\"0\" v2=\"1\" v3=\"2\"/></mesh>",
            x, x, x
        )
    };
    let text = model(
        &format!(
            "<object id=\"1\">{}</object><object id=\"2\">{}</object><object id=\"3\">{}\
             <components><component objectid=\"2\" transform=\"-1 0 0 0 1 0 0 0 1 0 0 0\"/>\
             <component objectid=\"1\"/></components></object>",
            mesh(1),
            mesh(2),
            mesh(3)
        ),
        "<item objectid=\"3\" transform=\"1 0 0 0 1 0 0 0 1 10 0 0\"/>",
    );
    let m = load(&archive(&[("3d/3dmodel.model", &text)])).ok().unwrap();
    let corners: Vec<[f32; 3]> = m.vertices.iter().map(|v| values(v.position)).collect();
    assert_eq!(
        corners,
        [
            [13.0, 0.0, 0.0],
            [13.0, 1.0, 0.0],
            [13.0, 0.0, 1.0],
            [8.0, 0.0, 0.0],
            [8.0, 0.0, 1.0],
            [8.0, 1.0, 0.0],
            [11.0, 0.0, 0.0],
            [11.0, 1.0, 0.0],
            [11.0, 0.0, 1.0],
        ]
    );
}

#[test]
fn triangles_before_a_faulty_one_have_been_added() {
    let corners = |v1: u32| format!("<triangle v1=\"{}\" v2=\"1\" v3=\"2\"/>", v1);
    let m = parsed(&format!(
        "<object id=\"1\"><mesh><vertex x=\"0\" y=\"0\" z=\"0\"/><vertex x=\"1\" y=\"1\" z=\"1\"/>\
         <vertex x=\"2\" y=\"2\" z=\"2\"/>{}{}{}{}</mesh><components><component objectid=\"3\"/>\
         </components></object><object id=\"2\"><components><component objectid=\"3\"/>\
         <component objectid=\"1\"/><component objectid=\"3\"/></components></object>\
         <object id=\"3\"/>",
        corners(0),
        corners(2),
        corners(3),
        corners(0),
    ));
    let files = vec![File { path: "r".to_string(), model: m }];
    let none = Vec::new();
    let added = |id: u64, depth: usize| {
        let mut placed = Vec::new();
        let r = add_object(&files, "r", id, &none, depth, &mut placed);
        let counts = placed.iter().map(|p| (p.object.triangles.len(), p.triangles)).collect();
        (r, counts)
    };
    assert_eq!(added(1, 0), (Err(SceneError::MissingVertex), vec![(4, 2)]));
    assert_eq!(added(2, 0), (Err(SceneError::MissingVertex), vec![(0, 0), (0, 0), (4, 2)]));
    assert_eq!(added(3, 32), (Ok(()), vec![(0, 0)]));
    assert_eq!(added(2, 32), (Err(SceneError::TooDeep), vec![(0, 0)]));
    assert_eq!(added(3, 33), (Err(SceneError::TooDeep), Vec::new()));
    assert_eq!(added(9, 0), (Ok(()), Vec::new()));
}

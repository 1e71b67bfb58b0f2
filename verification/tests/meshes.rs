use stl_thumb::mesh::bounds::{BoundingBox, Point};
use stl_thumb::mesh::obj::{ObjError, ObjMesh};
use stl_thumb::mesh::single::Single;
use stl_thumb::mesh::stl::{Facet, StlError};
use stl_thumb::mesh::triangles::{Mesh, MeshBuilder, Normal, Normals, Triangle};

fn single(v: f32) -> Single {
    Single { bits: v.to_bits() }
}

fn point(v: [f32; 3]) -> Point {
    Point { x: single(v[0]), y: single(v[1]), z: single(v[2]) }
}

fn values(p: Point) -> [f32; 3] {
    [p.x, p.y, p.z].map(|s| f32::from_bits(s.bits))
}

fn triangle(a: [f32; 3], b: [f32; 3], c: [f32; 3]) -> Triangle {
    Triangle { a: point(a), b: point(b), c: point(c) }
}

/// A stand-in that is easy to recognise: the first corner.
fn first_corner(t: Triangle) -> Normal {
    Normal { normal: t.a }
}

fn vertices(mesh: &Mesh) -> Vec<[f32; 3]> {
    mesh.vertices.iter().map(|v| values(v.position)).collect()
}

fn normals(mesh: &Mesh) -> Vec<[f32; 3]> {
    mesh.normals.iter().map(|n| values(n.normal)).collect()
}

fn bounds(mesh: &Mesh) -> ([f32; 3], [f32; 3]) {
    (values(mesh.bounds.min), values(mesh.bounds.max))
}

#[test]
fn bit_patterns_are_ordered_as_numbers_are() {
    let numbers = [
        0.0,
        -0.0,
        1.0,
        -1.0,
        1.5,
        -1.5,
        f32::MIN_POSITIVE,
        -f32::MIN_POSITIVE,
        f32::MAX,
        f32::MIN,
        f32::INFINITY,
        f32::NEG_INFINITY,
        f32::NAN,
        -f32::NAN,
        f32::from_bits(1),
        f32::from_bits(0x8000_0001),
    ];
    for a in numbers {
        assert_eq!(single(a).is_finite(), a.is_finite(), "{}", a);
        assert_eq!(single(a).is_zero(), a == 0.0, "{}", a);
        for b in numbers {
            assert_eq!(single(a).lt(single(b)), a < b, "{} < {}", a, b);
        }
    }
}

#[test]
fn boxes_take_in_points() {
    let mut b = BoundingBox::new(&point([1.0, 2.0, 3.0]));
    b.expand(&point([-1.0, 5.0, 3.0]));
    b.expand(&point([0.0, 3.0, -3.0]));
    assert_eq!(values(b.min), [-1.0, 2.0, -3.0]);
    assert_eq!(values(b.max), [1.0, 5.0, 3.0]);
    // A point inside changes nothing, and neither does what is not a number.
    let before = b;
    b.expand(&point([0.5, 2.5, 0.0]));
    b.expand(&point([f32::NAN, f32::NAN, f32::NAN]));
    assert_eq!(b, before);
}

#[test]
fn turning_a_triangle_twice_gives_it_back() {
    let t = triangle([0.0; 3], [1.0; 3], [2.0; 3]);
    assert_eq!(t.turned(true), triangle([0.0; 3], [2.0; 3], [1.0; 3]));
    assert_eq!(t.turned(true).turned(true), t);
    assert_eq!(t.turned(false), t);
}

#[test]
fn builders_keep_normals_and_calculate_missing_ones() {
    let t = triangle([1.0, 0.0, 0.0], [2.0, 0.0, 0.0], [2.0, 1.0, 0.0]);
    let u = triangle([-1.0, 0.0, 5.0], [2.0, 0.0, 0.0], [2.0, 1.0, 0.0]);
    let given = |v: f32| Normal { normal: point([v, v, v]) };
    let mut builder = MeshBuilder::new(&first_corner);
    builder.add_triangle(t, Some(Normals { a: given(7.0), b: given(8.0), c: given(9.0) }));
    builder.add_triangle(u, None);
    let mesh = builder.finish().unwrap();
    assert_eq!(
        vertices(&mesh),
        [
            [1.0, 0.0, 0.0],
            [2.0, 0.0, 0.0],
            [2.0, 1.0, 0.0],
            [-1.0, 0.0, 5.0],
            [2.0, 0.0, 0.0],
            [2.0, 1.0, 0.0]
        ]
    );
    assert_eq!(
        normals(&mesh),
        [[7.0; 3], [8.0; 3], [9.0; 3], [-1.0, 0.0, 5.0], [-1.0, 0.0, 5.0], [-1.0, 0.0, 5.0]]
    );
    assert_eq!(bounds(&mesh), ([-1.0, 0.0, 0.0], [2.0, 1.0, 5.0]));
    assert!(mesh.indices.is_empty());
    // The first triangle tells whether the model had normals.
    assert!(mesh.model_had_normals);
}

#[test]
fn builders_without_triangles_give_no_mesh() {
    assert!(MeshBuilder::new(&first_corner).finish().is_none());
}

const ASCII: &str = "solid two
facet normal 0 0 1
 outer loop
  vertex 0 0 0
  vertex 1 0 0
  vertex 0 1 0
 endloop
endfacet
facet normal 0 0 0
 outer loop
  vertex 5 0 -2
  vertex 6 0 -2
  vertex 5 1 -2
 endloop
endfacet
endsolid two
";

#[test]
fn ascii_stl_files() {
    let mesh = Mesh::from_stl(ASCII.as_bytes(), false, &first_corner).ok().unwrap();
    assert_eq!(mesh.vertices.len(), 6);
    assert_eq!(vertices(&mesh)[1], [1.0, 0.0, 0.0]);
    // The first triangle has a normal, the second one is missing it.
    assert_eq!(
        normals(&mesh),
        [
            [0.0, 0.0, 1.0],
            [0.0, 0.0, 1.0],
            [0.0, 0.0, 1.0],
            [5.0, 0.0, -2.0],
            [5.0, 0.0, -2.0],
            [5.0, 0.0, -2.0]
        ]
    );
    assert_eq!(bounds(&mesh), ([0.0, 0.0, -2.0], [6.0, 1.0, 0.0]));
    assert!(!mesh.model_had_normals);
}

#[test]
fn normals_are_recalculated_on_demand() {
    let mesh = Mesh::from_stl(ASCII.as_bytes(), true, &first_corner).ok().unwrap();
    assert_eq!(normals(&mesh)[0], [0.0, 0.0, 0.0]);
    assert_eq!(normals(&mesh)[3], [5.0, 0.0, -2.0]);
    assert!(!mesh.model_had_normals);
}

fn binary_stl(facets: &[[f32; 12]]) -> Vec<u8> {
    let mut bytes = vec![0; 80];
    bytes.extend((facets.len() as u32).to_le_bytes());
    for facet in facets {
        for v in facet {
            bytes.extend(v.to_le_bytes());
        }
        bytes.extend([0, 0]);
    }
    bytes
}

#[test]
fn binary_stl_files() {
    let bytes = binary_stl(&[
        [0.0, 1.0, 0.0, 1.0, 2.0, 3.0, 4.0, 5.0, 6.0, 7.0, 8.0, 9.0],
        [1.0, 0.0, 0.0, 0.5, 0.5, 0.5, 4.0, 5.0, 6.0, 7.0, 8.0, 10.0],
    ]);
    let mesh = Mesh::from_stl(&bytes, false, &first_corner).ok().unwrap();
    assert_eq!(vertices(&mesh)[..3], [[1.0, 2.0, 3.0], [4.0, 5.0, 6.0], [7.0, 8.0, 9.0]]);
    assert_eq!(normals(&mesh)[0], [0.0, 1.0, 0.0]);
    assert_eq!(normals(&mesh)[5], [1.0, 0.0, 0.0]);
    assert_eq!(bounds(&mesh), ([0.5, 0.5, 0.5], [7.0, 8.0, 10.0]));
    assert!(mesh.model_had_normals);
}

#[test]
fn bad_stl_files() {
    let truncated = &binary_stl(&[[0.0; 12], [0.0; 12]])[..100];
    assert!(matches!(
        Mesh::from_stl(truncated, false, &first_corner),
        Err(StlError::Read(_))
    ));
    assert!(matches!(
        Mesh::from_stl(&binary_stl(&[]), false, &first_corner),
        Err(StlError::NoTriangles)
    ));
    assert!(matches!(
        Mesh::from_stl(b"solid nothing\nendsolid nothing\n", false, &first_corner),
        Err(StlError::NoTriangles)
    ));
    assert!(matches!(Mesh::from_stl(b"", false, &first_corner), Err(StlError::Read(_))));
}

#[test]
fn facets_with_negative_zero_normals_are_missing_them() {
    let facet = Facet {
        normal: point([-0.0, 0.0, -0.0]),
        triangle: triangle([1.0, 1.0, 1.0], [2.0; 3], [3.0; 3]),
    };
    let mesh = Mesh::from_facets(&vec![facet], false, &first_corner).unwrap();
    assert_eq!(normals(&mesh)[2], [1.0, 1.0, 1.0]);
    assert!(!mesh.model_had_normals);
    assert!(Mesh::from_facets(&vec![], false, &first_corner).is_none());
}

#[test]
fn obj_files() {
    let text = "v 9 9 9\nv 0 0 0\nv 1 0 0\nv 1 1 0\nv 0 1 0\nf 2 3 4 5\n";
    let mesh = Mesh::from_obj(text.as_bytes(), false, &first_corner).ok().unwrap();
    // The quad is divided into two triangles.
    assert_eq!(
        vertices(&mesh),
        [
            [0.0, 0.0, 0.0],
            [1.0, 0.0, 0.0],
            [1.0, 1.0, 0.0],
            [0.0, 0.0, 0.0],
            [1.0, 1.0, 0.0],
            [0.0, 1.0, 0.0]
        ]
    );
    assert_eq!(normals(&mesh), [[0.0; 3]; 6]);
    // Points that no face uses are not part of the mesh.
    assert_eq!(bounds(&mesh), ([0.0, 0.0, 0.0], [1.0, 1.0, 0.0]));
    assert!(mesh.model_had_normals);
}

#[test]
fn obj_files_with_normals_and_several_objects() {
    let text = "v 0 0 0\nv 1 0 0\nv 0 1 0\nvt 0 0\nvn 0 0 1\nvn 1 0 0\no a\nf 1/1/1 2/1/1 3/1/2\n\
                o b\nv 0 0 5\nf -1/-1/-1 1/1/1 2/1/1\n";
    let mesh = Mesh::from_obj(text.as_bytes(), true, &first_corner).ok().unwrap();
    assert_eq!(
        vertices(&mesh),
        [
            [0.0, 0.0, 0.0],
            [1.0, 0.0, 0.0],
            [0.0, 1.0, 0.0],
            [0.0, 0.0, 5.0],
            [0.0, 0.0, 0.0],
            [1.0, 0.0, 0.0]
        ]
    );
    assert_eq!(
        normals(&mesh),
        [
            [0.0, 0.0, 1.0],
            [0.0, 0.0, 1.0],
            [1.0, 0.0, 0.0],
            [1.0, 0.0, 0.0],
            [0.0, 0.0, 1.0],
            [0.0, 0.0, 1.0]
        ]
    );
    assert_eq!(bounds(&mesh), ([0.0, 0.0, 0.0], [1.0, 1.0, 5.0]));
}

fn obj_error(text: &str) -> ObjError {
    Mesh::from_obj(text.as_bytes(), false, &first_corner).err().unwrap()
}

#[test]
fn bad_obj_files() {
    assert!(matches!(obj_error("v 0 0\n"), ObjError::Read(_)));
    assert!(matches!(obj_error("v 0 0 0\nf 1 2 3\n"), ObjError::Read(_)));
    assert!(matches!(obj_error("v 0 0 0\n"), ObjError::EmptyMesh));
    assert!(matches!(obj_error(""), ObjError::EmptyMesh));
    // A normal at one corner only.
    let mixed = "v 0 0 0\nv 1 0 0\nv 0 1 0\nvn 0 0 1\nf 1//1 2 3\n";
    assert!(matches!(obj_error(mixed), ObjError::Malformed));
}

#[test]
fn references_that_no_index_can_lead_to() {
    let corners = "v 0 0 0\nv 1 0 0\nv 0 1 0\n";
    let wild = [
        "vt 0 0\nf 1/-3 2 3\n",
        "vn 0 0 1\nf 1//-3 2 3\n",
        "vn 0 0 1\nf 1//9000000000000000000 2 3\n",
        "f 1/-2 2 3\nvt 0 0\no next\n",
    ];
    for text in wild {
        assert!(matches!(obj_error(&format!("{}{}", corners, text)), ObjError::WildReference));
    }
    // Just before the first is nowhere, and without anything to refer to nothing is looked up.
    let tame = [
        "vt 0 0\nf 1/-2 2 3\n",
        "vt 0 0\nf 1/-1 2/1 3/0\n",
        "f 1/-5/-5 2 3\n",
        "f 1/-5 2 3\no next\nvt 0 0\nf 1 2 3\n",
    ];
    for text in tame {
        let text = format!("{}{}", corners, text);
        assert!(Mesh::from_obj(text.as_bytes(), false, &first_corner).is_ok(), "{}", text);
    }
}

#[test]
fn obj_meshes_start_their_box_at_the_first_point() {
    let mesh = |positions: &[f32], indices: Vec<u32>| ObjMesh {
        positions: positions.iter().map(|v| single(*v)).collect(),
        normals: Vec::new(),
        indices,
    };
    let corners = [9.0, 9.0, 9.0, 0.0, 0.0, 0.0, 1.0, 0.0, 0.0, 0.0, 1.0, 0.0];
    let made = Mesh::from_obj_meshes(&vec![mesh(&corners, vec![1, 2, 3])], &first_corner);
    assert_eq!(bounds(&made.ok().unwrap()), ([0.0, 0.0, 0.0], [9.0, 9.0, 9.0]));
    assert!(matches!(
        Mesh::from_obj_meshes(&vec![], &first_corner),
        Err(ObjError::EmptyModel)
    ));
    assert!(matches!(
        Mesh::from_obj_meshes(&vec![mesh(&corners[..2], vec![])], &first_corner),
        Err(ObjError::EmptyMesh)
    ));
    assert!(matches!(
        Mesh::from_obj_meshes(&vec![mesh(&corners, vec![1, 2, 4])], &first_corner),
        Err(ObjError::Malformed)
    ));
    assert!(matches!(
        Mesh::from_obj_meshes(&vec![mesh(&corners, vec![1, 2])], &first_corner),
        Err(ObjError::Malformed)
    ));
}

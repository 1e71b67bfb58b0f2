use ruststep::ast::Exchange;
use std::collections::HashSet;
use stl_thumb::mesh::bounds::Point;
use stl_thumb::mesh::single::Single;
use stl_thumb::mesh::triangles::{Mesh, Normal, Triangle};
use stl_thumb::step::assembly::{Assembly, Coordinates, Number, Placement, ShellRef, Transform};
use stl_thumb::step::entity::{Argument, Entity, Record};
use stl_thumb::step::polygons::{drawn, Corner, Polygon, PolygonFace};
use stl_thumb::step::syntax::{parse_step, StepError, MAX_NESTING};
use stl_thumb::step::walk::{shell_ids, Instance};

fn file(data: &str) -> String {
    format!(
        "ISO-10303-21;\nHEADER;\nFILE_DESCRIPTION((''),'2;1');\nFILE_NAME('','',(''),(''),'','','');\n\
         FILE_SCHEMA(('CONFIG_CONTROL_DESIGN'));\nENDSEC;\nDATA;\n{}\nENDSEC;\nEND-ISO-10303-21;\n",
        data
    )
}

fn assembly(data: &str) -> Assembly {
    let exchange = parse_step(file(data).as_bytes()).ok().unwrap();
    Assembly::of(&exchange).ok().unwrap()
}

fn draw(data: &str) -> Vec<(u64, bool, Vec<Transform>)> {
    instances(&assembly(data).shell_instances(&HashSet::new()))
}

fn instances(all: &[Instance]) -> Vec<(u64, bool, Vec<Transform>)> {
    all.iter().map(|i| (i.shell.id, i.shell.reversed, i.transforms.clone())).collect()
}

// ---------------------------------------------------------------------------
// Text
// ---------------------------------------------------------------------------

#[test]
fn texts_that_are_no_step_files() {
    assert!(matches!(parse_step(b"solid"), Err(StepError::Parse { .. })));
    assert!(matches!(parse_step(b""), Err(StepError::Parse { .. })));
    let without = "ISO-10303-21;HEADER;FILE_SCHEMA(());ENDSEC;END-ISO-10303-21;";
    let without = without.replace("(())", "((''))");
    let exchange = parse_step(without.as_bytes()).ok().unwrap();
    assert!(matches!(Assembly::of(&exchange), Err(StepError::NoData)));
}

#[test]
fn other_encodings_are_read() {
    let mut bytes = file("#1=CLOSED_SHELL('X',());").replace("()", "(#2)").into_bytes();
    let x = bytes.iter().position(|b| *b == b'X').unwrap();
    bytes[x] = 0xe4;
    let exchange = parse_step(&bytes).ok().unwrap();
    assert_eq!(Assembly::of(&exchange).ok().unwrap().count(), 1);
}

fn is_unsupported(data: &str) -> bool {
    matches!(parse_step(file(data).as_bytes()), Err(StepError::Unsupported))
}

#[test]
fn numbers_that_are_too_large_are_refused() {
    let large = "9223372036854775808";
    for data in [
        format!("#1=A({});", large),
        format!("#1=A(-{});", large),
        format!("#1=A(1.E{});", large),
        format!("#1=A(1.E- {}.);", large),
        format!("/* ' */#1=A({});", large),
        format!("/*/*/#1=A({});", large),
        format!("#1=A('/*',{});", large),
    ] {
        assert!(is_unsupported(&data), "{}", data);
    }
    for data in [
        "#1=A(9223372036854775807);".to_string(),
        format!("#1=A({}.);", large),
        format!("#1=A(0.{});", large),
        format!("#{}=A(#{});", large, large),
        format!("#1=A('{}');", large),
        format!("#1=A(1/* {} */);", large),
        format!("/* '{}' */#1=A('it',1);", large),
        format!("#1=A{}(B{}(1));", large, large),
        format!("#1=!E{}(.E{}.,.A{}.);", large, large, large),
        format!("#1=A(#E{},@E{},1.,.E{}.);", large, large, large),
    ] {
        assert!(parse_step(file(&data).as_bytes()).is_ok(), "{}", data);
    }
}

#[test]
fn what_follows_the_end_marker_is_not_read() {
    let large = "9223372036854775808";
    let lists = "(".repeat(300);
    for end in [
        format!("{}\n", large),
        format!("SIGNATURE {}+{} ENDSEC;", large, large),
        format!("{}{}", lists, large),
        "'".to_string(),
    ] {
        let text = file("#1=A(1);") + &end;
        assert!(parse_step(text.as_bytes()).is_ok(), "{}", end);
    }
    assert!(is_unsupported(&format!("#1=A('END-ISO-10303-21;',{});", large)));
    assert!(is_unsupported(&format!("/*END-ISO-10303-21;*/#1=A({});", large)));
}

#[test]
fn anchors_read_integers_in_front_of_points() {
    let large = "9223372036854775808";
    let sections = |sections: &str, data: &str| {
        file(data).replace("DATA;", &format!("{}DATA;", sections)).into_bytes()
    };
    let anchor = format!("ANCHOR;<a>={}.;ENDSEC;", large);
    assert!(matches!(parse_step(&sections(&anchor, "")), Err(StepError::Unsupported)));
    let data = format!("#1=A({}.);", large);
    assert!(parse_step(&sections("ANCHOR;<a>=1;ENDSEC;", &data)).is_ok());
    assert!(parse_step(&sections("REFERENCE;#9=<b>;ENDSEC;", &data)).is_ok());
}

#[test]
fn errors_may_be_far_along_a_line() {
    let parts = |text: &str| match parse_step(text.as_bytes()) {
        Err(StepError::Parse { rests, report }) => (rests, report),
        _ => panic!("not a STEP file"),
    };
    // The mark under the place stands in the column behind the last blank.
    let start = "ISO-10303-21;";
    let (rests, report) = parts(&format!("{}{}X", start, " ".repeat(65534 - start.len())));
    assert_eq!(rests[0], 1);
    assert!(report.unwrap().starts_with("Error while tokenizing STEP input\n"));
    let (rests, report) = parts(&format!("{}{}X", start, " ".repeat(65535 - start.len())));
    assert_eq!(rests[0], 1);
    assert!(report.is_none());
    let (_, report) = parts(&format!("{}{}\nX", start, " ".repeat(70000)));
    assert!(report.unwrap().contains("at line 2"));
    assert!(parts("").1.is_some());
    assert_eq!(parts("solid").0, [5]);
    let far = format!("#1=A('{}')X;", " ".repeat(70000));
    assert!(parts(&file(&far)).1.is_some());
}

#[test]
fn lists_may_be_nested_as_deeply_as_the_limit() {
    let nested = |list: &str, depth: usize| {
        format!("#1=A{}1{};", list.repeat(depth), ")".repeat(depth))
    };
    assert!(parse_step(file(&nested("(", MAX_NESTING)).as_bytes()).is_ok());
    assert!(is_unsupported(&nested("(", MAX_NESTING + 1)));
    let typed = "(B".repeat(MAX_NESTING - 1) + "(";
    let typed = format!("#1=A{}1{};", typed, ")".repeat(MAX_NESTING));
    assert!(parse_step(file(&typed).as_bytes()).is_ok());
    assert!(parse_step(file(&format!("#1=A('{}');", "(".repeat(300))).as_bytes()).is_ok());
}

#[test]
fn entities_are_read_as_far_as_they_matter() {
    let a = assembly(
        "#1=NAME('text',#2,(#3,4,-5.5,'x',$),.T.,*,TYPED(1.));\n\
         #7=(FIRST() SECOND(#1,$));",
    );
    match a.nth(0) {
        Entity::Simple { id, record } => {
            assert_eq!(*id, 1);
            assert_eq!(record.name, "NAME");
            assert_eq!(record.arguments.len(), 6);
            assert_eq!(record.reference(1), Some(2));
            assert_eq!(record.reference(0), None);
            assert_eq!(record.reference(99), None);
            assert_eq!(record.references(2), [3]);
            assert!(record.references(1).is_empty());
            assert!(matches!(&record.arguments[3], Argument::Enumeration(e) if e == "T"));
            assert!(matches!(&record.arguments[5], Argument::Other));
        }
        Entity::Complex { .. } => panic!("not simple"),
    }
    match a.nth(1) {
        Entity::Complex { id, records } => {
            assert_eq!(*id, 7);
            assert_eq!(records[0].name, "FIRST");
            assert!(records[0].arguments.is_empty());
            assert_eq!(records[1].reference(0), Some(1));
        }
        Entity::Simple { .. } => panic!("not complex"),
    }
}

#[test]
fn the_last_definition_of_an_entity_counts() {
    let a = assembly("#1=CLOSED_SHELL('',(#9));#2=X(#1);#1=Y(#2);");
    assert_eq!(a.count(), 2);
    assert_eq!(a.nth(0).id(), 2);
    assert_eq!(a.nth(1).id(), 1);
    assert!(a.shell_instances(&HashSet::new()).is_empty());
}

// ---------------------------------------------------------------------------
// Placements
// ---------------------------------------------------------------------------

const PLACEMENTS: &str = "\
#10=CARTESIAN_POINT('',(1.,2,-3.5));\n\
#11=DIRECTION('',(0.,0.,1.));\n\
#12=DIRECTION('',(1.));\n\
#13=DIRECTION('',(1.,'x',0.));\n\
#20=AXIS2_PLACEMENT_3D('',#10,#11,#12);\n\
#21=AXIS2_PLACEMENT_3D('',#10,#13,$);\n\
#22=AXIS2_PLACEMENT_3D('',#13,$,$);\n\
#23=AXIS2_PLACEMENT_2D('',#10,#11);\n";

fn double(v: f64) -> Number {
    Number::Real(v.to_bits())
}

#[test]
fn placements_are_points_and_directions() {
    let a = assembly(PLACEMENTS);
    let point = Coordinates { x: double(1.0), y: Number::Integer(2), z: double(-3.5) };
    assert_eq!(a.coordinates(10), Some(point));
    // Missing coordinates are zero.
    let x = Coordinates { x: double(1.0), y: double(0.0), z: double(0.0) };
    assert_eq!(a.coordinates(12), Some(x));
    assert_eq!(a.coordinates(13), None);
    assert_eq!(a.coordinates(20), None);
    let z = Coordinates { x: double(0.0), y: double(0.0), z: double(1.0) };
    let whole = Placement { location: point, axis: Some(z), ref_direction: Some(x) };
    assert_eq!(a.placement(20), Some(whole));
    let bare = Placement { location: point, axis: None, ref_direction: None };
    assert_eq!(a.placement(21), Some(bare));
    assert_eq!(a.placement(22), None);
    assert_eq!(a.placement(23), None);
    assert_eq!(a.placement(99), None);
}

#[test]
fn transformations_lie_between_placements() {
    let a = assembly(&format!(
        "{}#30=ITEM_DEFINED_TRANSFORMATION('','',#20,#21);\n\
         #31=ITEM_DEFINED_TRANSFORMATION('','',#20,#22);\n\
         #32=CARTESIAN_TRANSFORMATION_OPERATOR_3D('','',#20,#21);",
        PLACEMENTS
    ));
    assert_eq!(a.transformation(30, true), Transform::Between { parent: 20, child: 21 });
    assert_eq!(a.transformation(30, false), Transform::Between { parent: 21, child: 20 });
    assert_eq!(a.transformation(31, true), Transform::Identity);
    assert_eq!(a.transformation(32, true), Transform::Identity);
    assert_eq!(a.transformation(99, true), Transform::Identity);
}

#[test]
fn mapped_items_move_an_origin_to_a_target() {
    let a = assembly(&format!(
        "{}#40=REPRESENTATION_MAP(#20,#5);#41=REPRESENTATION_MAP(#22,#5);#42=REPRESENTATION_MAP(#20,$);\n\
         #50=MAPPED_ITEM('',#40,#21);#51=MAPPED_ITEM('',#41,#21);#52=MAPPED_ITEM('',#40,#22);\n\
         #53=MAPPED_ITEM('',#42,#21);",
        PLACEMENTS
    ));
    let item = |id: u64, singular: &HashSet<u64>| {
        let position = (0..a.count()).find(|i| a.nth(*i).id() == id).unwrap();
        match a.nth(position) {
            Entity::Simple { record, .. } => a.mapped_item(singular, record),
            Entity::Complex { .. } => panic!("not simple"),
        }
    };
    let none = HashSet::new();
    assert_eq!(item(50, &none), Some((5, Transform::Onto { target: 21, origin: 20 })));
    assert_eq!(item(51, &none), Some((5, Transform::At { target: 21 })));
    assert_eq!(item(52, &none), Some((5, Transform::Identity)));
    assert_eq!(item(53, &none), None);
    // An origin without an inverse cannot be moved, but it can be left where it is.
    let singular = HashSet::from([20]);
    assert_eq!(item(50, &singular), None);
    assert_eq!(item(51, &singular), Some((5, Transform::At { target: 21 })));
    assert_eq!(item(52, &singular), Some((5, Transform::Identity)));
    let mut origins = a.mapped_origins();
    origins.sort();
    origins.dedup();
    assert_eq!(origins, [20]);
}

// ---------------------------------------------------------------------------
// Shells
// ---------------------------------------------------------------------------

#[test]
fn solids_and_surface_models_show_their_shells() {
    let drawn = draw(
        "#1=ADVANCED_BREP_SHAPE_REPRESENTATION('',(#2,#3,#4,#5,#6),#9);\n\
         #2=MANIFOLD_SOLID_BREP('',#12);#3=FACETED_BREP('',#13);\n\
         #4=SHELL_BASED_SURFACE_MODEL('',(#14,#15));#5=AXIS2_PLACEMENT_3D('',$,$,$);\n\
         #12=CLOSED_SHELL('',(#99));#13=CLOSED_SHELL('',(#99));#14=OPEN_SHELL('',(#99));\n\
         #15=OPEN_SHELL('',(#99));",
    );
    let ids: Vec<u64> = drawn.iter().map(|i| i.0).collect();
    assert_eq!(ids, [12, 13, 14, 15]);
    assert!(drawn.iter().all(|i| !i.1 && i.2.is_empty()));
}

#[test]
fn oriented_shells_lead_to_shells() {
    let drawn = draw(
        "#1=SHAPE_REPRESENTATION('',(#2,#3,#4),#9);\n\
         #2=MANIFOLD_SOLID_BREP('',#21);#3=MANIFOLD_SOLID_BREP('',#22);\n\
         #4=SHELL_BASED_SURFACE_MODEL('',(#23,#24));\n\
         #21=ORIENTED_CLOSED_SHELL('',*,#31,.F.);#22=ORIENTED_CLOSED_SHELL('',*,#32,.T.);\n\
         #23=ORIENTED_OPEN_SHELL('',*,#33,.F.);#24=ORIENTED_OPEN_SHELL('',*,$,.F.);\n\
         #31=CLOSED_SHELL('',(#99));#32=CLOSED_SHELL('',(#99));#33=OPEN_SHELL('',(#99));",
    );
    let shells: Vec<(u64, bool)> = drawn.iter().map(|i| (i.0, i.1)).collect();
    assert_eq!(shells, [(31, true), (32, false), (33, true), (24, false)]);
}

#[test]
fn voids_are_never_drawn() {
    let drawn = draw(
        "#1=SHAPE_REPRESENTATION('',(#2),#9);#2=BREP_WITH_VOIDS('',#12,(#13,#14));\n\
         #12=CLOSED_SHELL('',(#99));#13=ORIENTED_CLOSED_SHELL('',*,#15,.F.);\n\
         #14=CLOSED_SHELL('',(#99));#15=CLOSED_SHELL('',(#99));",
    );
    assert_eq!(drawn, [(12, false, vec![])]);
}

#[test]
fn shells_outside_the_structure_are_drawn_where_they_are() {
    let drawn = draw(
        "#9=CLOSED_SHELL('',(#99));#3=(OPEN_SHELL((#99)) X());#1=SHAPE_REPRESENTATION('',(#2),#8);\n\
         #2=MANIFOLD_SOLID_BREP('',#20);#20=CLOSED_SHELL('',(#99));#4=FACE(#3);",
    );
    let ids: Vec<u64> = drawn.iter().map(|i| i.0).collect();
    assert_eq!(ids, [20, 3, 9]);
}

#[test]
fn context_dependent_representations_show_nothing() {
    let drawn = draw(
        "#1=CONTEXT_DEPENDENT_SHAPE_REPRESENTATION('',(#2));#2=MANIFOLD_SOLID_BREP('',#20);\n\
         #20=CLOSED_SHELL('',(#99));",
    );
    // The shell is loose.
    assert_eq!(drawn, [(20, false, vec![])]);
}

#[test]
fn every_shell_is_converted_once() {
    let instance = |id: u64| Instance {
        shell: ShellRef { id, reversed: false },
        transforms: Vec::new(),
    };
    assert_eq!(shell_ids(&vec![instance(5), instance(2), instance(5)]), [2, 5]);
    assert!(shell_ids(&vec![]).is_empty());
}

// ---------------------------------------------------------------------------
// Assemblies
// ---------------------------------------------------------------------------

/// A part at #100 (solid #102, shell #103), linked to #110, and a transformation #30.
const PART: &str = "\
#100=ADVANCED_BREP_SHAPE_REPRESENTATION('',(#102),#9);\n\
#102=MANIFOLD_SOLID_BREP('',#103);\n\
#103=CLOSED_SHELL('',(#99));\n\
#110=SHAPE_REPRESENTATION('',(#20),#9);\n\
#111=SHAPE_REPRESENTATION_RELATIONSHIP('','',#110,#100);\n\
#30=ITEM_DEFINED_TRANSFORMATION('','',#20,#21);\n";

fn relationship(id: u64, first: u64, second: u64) -> String {
    format!(
        "#{}=(REPRESENTATION_RELATIONSHIP('','',#{},#{})\
         REPRESENTATION_RELATIONSHIP_WITH_TRANSFORMATION(#30)\
         SHAPE_REPRESENTATION_RELATIONSHIP());\n",
        id, first, second
    )
}

#[test]
fn relationships_place_a_child_inside_a_parent() {
    // The child comes first.
    let data = format!(
        "{}{}#200=SHAPE_REPRESENTATION('',(#20),#9);{}{}",
        PLACEMENTS,
        PART,
        relationship(201, 110, 200),
        relationship(202, 110, 200),
    );
    let place = Transform::Between { parent: 21, child: 20 };
    assert_eq!(draw(&data), [(103, false, vec![place]), (103, false, vec![place])]);
}

#[test]
fn the_product_structure_says_which_one_is_the_parent() {
    // The parent comes first, against the standard.
    let products = "\
        #300=CONTEXT_DEPENDENT_SHAPE_REPRESENTATION(#201,#301);\n\
        #301=PRODUCT_DEFINITION_SHAPE('','',#302);\n\
        #302=NEXT_ASSEMBLY_USAGE_OCCURRENCE('','','',#303,#304,$);\n\
        #303=PRODUCT_DEFINITION('','',$,$);\n\
        #305=SHAPE_DEFINITION_REPRESENTATION(#306,#200);\n\
        #306=PRODUCT_DEFINITION_SHAPE('','',#303);\n";
    let data = format!(
        "{}{}#200=SHAPE_REPRESENTATION('',(#20),#9);\n{}{}",
        PLACEMENTS,
        PART,
        relationship(201, 200, 110),
        products,
    );
    assert_eq!(assembly(&data).assembly_parents().get(&201), Some(&200));
    let place = Transform::Between { parent: 20, child: 21 };
    assert_eq!(draw(&data), [(103, false, vec![place])]);
    // Without it the first one is taken for the child, and the part is on top.
    let data = data.replace("#302=NEXT", "#999=NEXT");
    assert!(assembly(&data).assembly_parents().is_empty());
    assert_eq!(draw(&data), [(103, false, vec![])]);
}

#[test]
fn assemblies_are_nested() {
    let data = format!(
        "{}{}#200=SHAPE_REPRESENTATION('',(#20),#9);#210=SHAPE_REPRESENTATION('',(#50),#9);\n\
         #50=MAPPED_ITEM('',#40,#21);#40=REPRESENTATION_MAP(#20,#200);\n{}",
        PLACEMENTS,
        PART,
        relationship(201, 110, 200),
    );
    let outer = Transform::Onto { target: 21, origin: 20 };
    let inner = Transform::Between { parent: 21, child: 20 };
    assert_eq!(draw(&data), [(103, false, vec![outer, inner])]);
    // With an origin that has no inverse the copy is dropped, and the rest is on top.
    let singular = HashSet::from([20]);
    let rest = assembly(&data).shell_instances(&singular);
    assert_eq!(instances(&rest), [(103, false, vec![inner])]);
}

#[test]
fn cycles_are_cut_off() {
    let place = Transform::Between { parent: 21, child: 20 };
    let data = format!(
        "{}{}#200=SHAPE_REPRESENTATION('',(#20),#9);#210=SHAPE_REPRESENTATION('',(#20),#9);\n{}{}{}",
        PLACEMENTS,
        PART,
        relationship(201, 110, 200),
        relationship(202, 200, 110),
        relationship(203, 110, 210),
    );
    let drawn = draw(&data);
    // From the top the part comes again and again, two levels further down each time.
    assert_eq!(drawn.len(), 32);
    assert_eq!(drawn[0], (103, false, vec![place]));
    assert!(drawn.iter().all(|i| i.2.len() <= 64));
    // Nothing is on top of a cycle on its own.
    let data = format!(
        "{}{}{}",
        PLACEMENTS,
        PART,
        relationship(201, 110, 110)
    );
    assert!(draw(&data).is_empty());
}

// ---------------------------------------------------------------------------
// Meshed shells
// ---------------------------------------------------------------------------

fn point(v: f32) -> Point {
    let v = Single { bits: v.to_bits() };
    Point { x: v, y: v, z: v }
}

fn first_corner(t: Triangle) -> Normal {
    Normal { normal: t.a }
}

fn polygon(normals: &[f32], corners: [Option<usize>; 3], mirrored: bool, reversed: bool) -> Polygon {
    let corner = |i: usize| Corner { position: i, normal: corners[i] };
    Polygon {
        positions: vec![point(1.0), point(2.0), point(3.0)],
        normals: normals.iter().map(|v| point(*v)).collect(),
        faces: vec![PolygonFace { a: corner(0), b: corner(1), c: corner(2) }],
        mirrored,
        reversed,
    }
}

fn mesh(p: Polygon) -> (Vec<f32>, Vec<f32>, bool) {
    assert!(p.is_whole());
    let m = Mesh::from_polygons(&vec![p], &first_corner).ok().unwrap();
    let first = |p: Point| f32::from_bits(p.x.bits);
    (
        m.vertices.iter().map(|v| first(v.position)).collect(),
        m.normals.iter().map(|n| first(n.normal)).collect(),
        m.model_had_normals,
    )
}

#[test]
fn mirrored_and_reversed_shells_have_their_triangles_turned() {
    let all = [Some(0), Some(1), Some(2)];
    let n = [7.0, 8.0, 9.0];
    let straight = (vec![1.0, 2.0, 3.0], vec![7.0, 8.0, 9.0], true);
    let turned = (vec![1.0, 3.0, 2.0], vec![7.0, 9.0, 8.0], true);
    assert_eq!(mesh(polygon(&n, all, false, false)), straight);
    assert_eq!(mesh(polygon(&n, all, true, false)), turned);
    assert_eq!(mesh(polygon(&n, all, false, true)), turned);
    assert_eq!(mesh(polygon(&n, all, true, true)), straight);
}

#[test]
fn normals_are_used_when_there_are_three_finite_ones() {
    let calculated = (vec![1.0, 2.0, 3.0], vec![1.0, 1.0, 1.0], false);
    let all = [Some(0), Some(1), Some(2)];
    assert_eq!(mesh(polygon(&[7.0, 8.0], all, false, false)), calculated);
    assert_eq!(
        mesh(polygon(&[7.0, 8.0, 9.0], [Some(0), None, Some(2)], false, false)),
        calculated
    );
    assert_eq!(mesh(polygon(&[7.0, f32::NAN, 9.0], all, false, false)), calculated);
    assert_eq!(mesh(polygon(&[7.0, 8.0, f32::INFINITY], all, false, false)), calculated);
}

/// One triangle for every instance, as far from the origin as it has transforms.
fn tessellate(_: &Exchange, _: &Assembly, instances: &Vec<Instance>) -> Vec<Option<Polygon>> {
    instances
        .iter()
        .map(|i| {
            let mut p = polygon(&[], [None, None, None], false, false);
            p.positions[0] = point(i.transforms.len() as f32);
            Some(p)
        })
        .collect()
}

fn load(bytes: &[u8], is_singular: bool) -> Result<Vec<f32>, StepError> {
    let singular = |_: Placement| is_singular;
    let m = Mesh::from_step(bytes, false, &singular, &tessellate, &first_corner)?;
    Ok(m.vertices.iter().map(|v| f32::from_bits(v.position.x.bits)).collect())
}

#[test]
fn step_files_become_meshes() {
    let data = format!(
        "{}{}#200=SHAPE_REPRESENTATION('',(#20),#9);#210=SHAPE_REPRESENTATION('',(#50),#9);\n\
         #50=MAPPED_ITEM('',#40,#21);#40=REPRESENTATION_MAP(#20,#200);\n{}#7=OPEN_SHELL('',(#99));",
        PLACEMENTS,
        PART,
        relationship(201, 110, 200),
    );
    let bytes = file(&data).into_bytes();
    assert_eq!(load(&bytes, false).ok().unwrap(), [2.0, 2.0, 3.0, 0.0, 2.0, 3.0]);
    assert_eq!(load(&bytes, true).ok().unwrap(), [1.0, 2.0, 3.0, 0.0, 2.0, 3.0]);
    assert!(matches!(load(b"nothing", false), Err(StepError::Parse { .. })));
    let empty = file("#1=A();").into_bytes();
    assert!(matches!(load(&empty, false), Err(StepError::NoTriangles)));
    let large = file("#1=A(99999999999999999999);").into_bytes();
    assert!(matches!(load(&large, false), Err(StepError::Unsupported)));
}

#[test]
fn instances_without_a_mesh_are_not_drawn() {
    let all = [1, 2, 3].map(|id| Instance {
        shell: ShellRef { id, reversed: id == 3 },
        transforms: Vec::new(),
    });
    let shape = |x: f32| {
        let mut p = polygon(&[], [None, None, None], true, true);
        p.positions[0] = point(x);
        Some(p)
    };
    let r = drawn(&Vec::from(all), vec![shape(5.0), None, shape(6.0)]);
    let r: Vec<_> = r.iter().map(|p| (p.positions[0].x.bits, p.mirrored, p.reversed)).collect();
    assert_eq!(r, [(5.0f32.to_bits(), true, false), (6.0f32.to_bits(), true, true)]);
}

#[test]
fn polygons_without_their_positions_are_not_whole() {
    let mut p = polygon(&[], [None, None, None], false, false);
    p.positions.pop();
    assert!(!p.is_whole());
    let empty = Mesh::from_polygons(&vec![], &first_corner);
    assert!(matches!(empty, Err(StepError::NoTriangles)));
}

#[test]
fn records_know_their_names() {
    let record = Record { name: "A".to_string(), arguments: vec![Argument::Ref(3)] };
    assert!(record.is_named("A"));
    assert!(!record.is_named("a"));
    assert_eq!(record.reference(0), Some(3));
    let entity = Entity::Simple { id: 4, record };
    assert_eq!(entity.record_count(), 1);
    assert!(entity.first_named("A").is_some());
    assert!(entity.first_named("B").is_none());
    assert_eq!(Assembly::new(vec![entity]).count(), 1);
}

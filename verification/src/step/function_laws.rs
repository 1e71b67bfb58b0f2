//! What the functions on data sections give, and what the models of their values are.
use ruststep::ast::Exchange;
use std::collections::{HashMap, HashSet};
use vstd::prelude::*;

use super::assembly::{
    coordinates, last_definitions, mapped_item, parents, placement, transformation, Assembly,
    Coordinates, Placement, Transform,
};
use super::assembly_laws::{
    has_record, is_first_record, law_entity, law_first_record, leads_to_placement, refers,
};
use super::entity::{refs, Argument, ArgumentView, Entity, EntityView, Record, RecordView};
use super::load::{is_step_load, meshes_shells};
use super::mesh_laws::shows_face;
use super::polygons::{
    drawn, law_each_instance_drawn, polygon_pieces, polygons_view, shape_count, Polygon,
    PolygonView,
};
use super::structure::{graph, Structure};
use super::syntax::{is_parsable, is_parse_error, parse_step, parsed_sections, sections, StepError};
use super::walk::{instances_view, is_drawn, is_instances, shell_ids, Instance};
use crate::mesh::triangles::{finds_normals, Mesh, Normal, Triangle};
use crate::text::utf8_lossy;

verus! {

// ---------------------------------------------------------------------------
// Values
// ---------------------------------------------------------------------------

/// The model of an argument is what the argument says.
pub proof fn law_argument_view(a: Argument)
    ensures
        match a {
            Argument::Ref(id) => a@ == ArgumentView::Ref(id),
            Argument::List(items) => a@ == ArgumentView::List(items@),
            Argument::Enumeration(e) => a@ == ArgumentView::Enumeration(e@),
            Argument::Other => a@ == ArgumentView::Other,
        },
{
}

/// The model of a record is its name and its arguments in order.
pub proof fn law_record_view(r: Record, i: int)
    ensures
        r@.name == r.name@,
        r@.arguments.len() == r.arguments@.len(),
        0 <= i < r.arguments@.len() ==> r@.arguments[i] == r.arguments@[i]@,
{
}

/// The model of an entity is its id and its records in order.
pub proof fn law_entity_view(e: Entity, i: int)
    ensures
        match e {
            Entity::Simple { id, record } => e@ == (EntityView::Simple { id, record: record@ }),
            Entity::Complex { id, records } => e@ matches EntityView::Complex {
                id: same,
                records: views,
            } && same == id && views.len() == records@.len() && (0 <= i < records@.len()
                ==> views[i] == records@[i]@),
        },
{
}

/// The model of an instance is its shell and its transforms.
pub proof fn law_instance_view(instances: Seq<Instance>, i: int)
    ensures
        instances_view(instances).len() == instances.len(),
        0 <= i < instances.len() ==> instances_view(instances)[i].shell == instances[i].shell
            && instances_view(instances)[i].transforms == instances[i].transforms@,
{
}

/// The model of a meshed shell is what it holds.
pub proof fn law_polygon_view(p: Polygon)
    ensures
        p@.positions == p.positions@,
        p@.normals == p.normals@,
        p@.faces == p.faces@,
        p@.mirrored == p.mirrored,
        p@.reversed == p.reversed,
{
}

// ---------------------------------------------------------------------------
// Records
// ---------------------------------------------------------------------------

/// A record refers to what its arguments refer to.
pub proof fn law_record_functions(
    r: &Record,
    index: usize,
    one: Option<u64>,
    all: Vec<u64>,
    name: &str,
    named: bool,
    id: u64,
)
    requires
        call_ensures(Record::reference, (r, index), one),
        call_ensures(Record::references, (r, index), all),
        call_ensures(Record::is_named, (r, name), named),
    ensures
        one == Some(id) <==> index < r.arguments@.len() && r.arguments@[index as int]@
            == ArgumentView::Ref(id),
        match r@.arguments[index as int] {
            ArgumentView::List(items) => index < r.arguments@.len() ==> all@ == refs(items),
            _ => all@.len() == 0,
        },
        index >= r.arguments@.len() ==> all@.len() == 0,
        named <==> r.name@ == name@,
{
    if index < r.arguments@.len() {
        assert(r@.arguments[index as int] == r.arguments@[index as int]@);
    }
}

/// An entity has the id that it says, and its first record with a name is found.
pub proof fn law_entity_functions(
    e: &Entity,
    id: u64,
    count: usize,
    name: &str,
    found: Option<&Record>,
    k: int,
)
    requires
        call_ensures(Entity::id, (e,), id),
        call_ensures(Entity::record_count, (e,), count),
        call_ensures(Entity::first_named, (e, name), found),
    ensures
        match *e {
            Entity::Simple { id: own, .. } => id == own && count == 1,
            Entity::Complex { id: own, records } => id == own && count == records@.len(),
        },
        is_first_record(e@.records(), |x: RecordView| x.name == name@, k) ==> found is Some
            && found->0@ == e@.records()[k],
        (forall|j: int| 0 <= j < e@.records().len() ==> (#[trigger] e@.records()[j]).name != name@)
            ==> found is None,
{
    let wanted = |x: RecordView| x.name == name@;
    law_first_record(e@.records(), wanted, k);
}

// ---------------------------------------------------------------------------
// Assemblies
// ---------------------------------------------------------------------------

/// An assembly has the entities of a data section of which the last definition counts.
pub proof fn law_assembly_new(entities: Vec<Entity>, a: Assembly, es: Seq<EntityView>)
    requires
        call_ensures(Assembly::new, (entities,), a),
        es.len() == entities@.len(),
        forall|i: int| 0 <= i < es.len() ==> #[trigger] es[i] == entities@[i]@,
    ensures
        a.wf(),
        a@ == last_definitions(es, es.len() as int),
{
    assert(es =~= super::entity::entities_view(entities@));
}

/// What is looked up in an assembly is what its entities say.
pub proof fn law_assembly_functions(
    a: &Assembly,
    id: u64,
    count: usize,
    point: Option<Coordinates>,
    place: Option<Placement>,
    first: bool,
    between: Transform,
    ps: HashMap<u64, u64>,
)
    requires
        a.wf(),
        call_ensures(Assembly::count, (a,), count),
        call_ensures(Assembly::coordinates, (a, id), point),
        call_ensures(Assembly::placement, (a, id), place),
        call_ensures(Assembly::transformation, (a, id, first), between),
        call_ensures(Assembly::assembly_parents, (a,), ps),
    ensures
        count == a@.len(),
        point == coordinates(a@, id),
        place == placement(a@, id),
        between == transformation(a@, id, first),
        ps@ == parents(a@),
{
}

/// An entity is found by its position, and the representations are those of the graph.
pub proof fn law_assembly_parts(
    a: &Assembly,
    index: usize,
    e: &Entity,
    singular: &HashSet<u64>,
    structure: Structure,
)
    requires
        a.wf(),
        index < a@.len(),
        call_ensures(Assembly::nth, (a, index), e),
        call_ensures(Assembly::structure, (a, singular), structure),
    ensures
        e@ == a@[index as int],
        structure.models(a@, graph(a@, singular@, a@.len() as int)),
{
}

/// A mapped item is what its record says.
pub proof fn law_mapped_item_function(
    a: &Assembly,
    singular: &HashSet<u64>,
    r: &Record,
    m: Option<(u64, Transform)>,
)
    requires
        a.wf(),
        call_ensures(Assembly::mapped_item, (a, singular, r), m),
    ensures
        m == mapped_item(a@, singular@, r@),
{
}

/// The origins of mapped items are the placements that their maps lead to.
pub proof fn law_mapped_origins(
    a: &Assembly,
    r: Vec<u64>,
    item: u64,
    x: RecordView,
    map: u64,
    m: RecordView,
    origin: u64,
)
    requires
        a.wf(),
        super::assembly::distinct_ids(a@),
        call_ensures(Assembly::mapped_origins, (a,), r),
        has_record(a@, item, x),
        x.name == "MAPPED_ITEM"@,
        refers(x, 1, map),
        has_record(a@, map, m),
        leads_to_placement(a@, m, 0, origin),
    ensures
        r@.contains(origin),
{
    let e = EntityView::Simple { id: item, record: x };
    let i = choose|i: int| 0 <= i < a@.len() && a@[i] == e;
    law_entity(a@, map, EntityView::Simple { id: map, record: m }, m);
    assert(super::assembly::origin_of(a@, a@[i]) == Some(origin));
}

/// The instances of an assembly are those that its entities describe.
pub proof fn law_shell_instances(a: &Assembly, singular: &HashSet<u64>, r: Vec<Instance>)
    requires
        a.wf(),
        call_ensures(Assembly::shell_instances, (a, singular), r),
    ensures
        is_instances(a@, singular@, instances_view(r@)),
{
}

/// The shells of instances are listed by their ids, each of them once.
pub proof fn law_shell_ids(instances: &Vec<Instance>, r: Vec<u64>, id: u64, i: int, j: int)
    requires
        call_ensures(shell_ids, (instances,), r),
    ensures
        0 <= i < j < r@.len() ==> r@[i] < r@[j],
        r@.contains(id) ==> exists|k: int|
            0 <= k < instances@.len() && (#[trigger] instances@[k]).shell.id == id,
        0 <= i < instances@.len() ==> r@.contains(instances@[i].shell.id),
{
    if 0 <= i < instances@.len() {
        let own = instances@[i].shell.id;
        assert(is_drawn(instances@, own));
        assert(r@.contains(own));
    }
}

// ---------------------------------------------------------------------------
// Files
// ---------------------------------------------------------------------------

/// A text that can be parsed gives its data sections, and the first of them gives the assembly.
pub proof fn law_parse_step(
    bytes: &[u8],
    r: Result<Exchange, StepError>,
    exchange: &Exchange,
    a: Result<Assembly, StepError>,
)
    requires
        call_ensures(parse_step, (bytes,), r),
        call_ensures(Assembly::of, (exchange,), a),
    ensures
        r is Ok <==> is_parsable(utf8_lossy(bytes@)) && parsed_sections(utf8_lossy(bytes@)) is Some,
        r matches Ok(x) ==> parsed_sections(utf8_lossy(bytes@)) == Some(sections(x)),
        (r matches Err(StepError::Unsupported)) <==> !is_parsable(utf8_lossy(bytes@)),
        r matches Err(StepError::Parse { rests, report }) ==> is_parse_error(
            utf8_lossy(bytes@),
            rests@,
            report,
        ),
        a is Ok <==> sections(*exchange).len() > 0,
        a matches Ok(assembly) ==> assembly@ == last_definitions(
            sections(*exchange)[0],
            sections(*exchange)[0].len() as int,
        ),
        a is Err ==> a matches Err(StepError::NoData),
{
}

/// Whether the corners of every triangle of a meshed shell have positions is told, and the shells
/// that instances draw are those that they have, in order, turned as the instances say.
pub proof fn law_polygon_functions(
    p: &Polygon,
    whole: bool,
    instances: &Vec<Instance>,
    shapes: Vec<Option<Polygon>>,
    r: Vec<Polygon>,
    i: int,
)
    requires
        call_ensures(Polygon::is_whole, (p,), whole),
        shapes@.len() == instances@.len(),
        call_ensures(drawn, (instances, shapes), r),
    ensures
        whole <==> forall|k: int|
            0 <= k < p.faces@.len() ==> {
                let face = #[trigger] p.faces@[k];
                face.a.position < p.positions@.len() && face.b.position < p.positions@.len()
                    && face.c.position < p.positions@.len()
            },
        r@.len() == shape_count(shapes@, instances@.len() as int),
        0 <= i < instances@.len() && shapes@[i] is Some ==> {
            let at = shape_count(shapes@, i);
            let shape = shapes@[i]->0;
            &&& 0 <= at < r@.len()
            &&& r@[at].positions@ == shape.positions@
            &&& r@[at].normals@ == shape.normals@
            &&& r@[at].faces@ == shape.faces@
            &&& r@[at].mirrored == shape.mirrored
            &&& r@[at].reversed == instances@[i].shell.reversed
        },
{
    let n = instances@.len() as int;
    if whole {
        assert forall|k: int| 0 <= k < p.faces@.len() implies ({
            let face = #[trigger] p.faces@[k];
            face.a.position < p.positions@.len() && face.b.position < p.positions@.len()
                && face.c.position < p.positions@.len()
        }) by {
            assert(p@.faces[k].fits(p@.positions.len()));
        }
    } else if forall|k: int|
        0 <= k < p.faces@.len() ==> {
            let face = #[trigger] p.faces@[k];
            face.a.position < p.positions@.len() && face.b.position < p.positions@.len()
                && face.c.position < p.positions@.len()
        } {
        assert forall|k: int| 0 <= k < p@.faces.len() implies (#[trigger] p@.faces[k]).fits(
            p@.positions.len(),
        ) by {
            assert(p.faces@[k] == p@.faces[k]);
        }
    }
    assert(polygons_view(r@).len() == r@.len());
    if n > 0 {
        law_each_instance_drawn(instances@, shapes@, n, 0);
    }
    if 0 <= i < n {
        law_each_instance_drawn(instances@, shapes@, n, i);
        if shapes@[i] is Some {
            let at = shape_count(shapes@, i);
            assert(polygons_view(r@)[at] == r@[at]@);
        }
    }
}

/// How many triangles the first of several meshed shells have.
pub open spec fn polygon_total(polygons: Seq<Polygon>, n: int) -> int
    decreases n,
{
    if n <= 0 {
        0
    } else {
        polygon_total(polygons, n - 1) + polygons[n - 1].faces@.len()
    }
}

proof fn lemma_polygon_pieces(polygons: Seq<Polygon>, n: int, i: int, j: int)
    requires
        0 <= n <= polygons.len(),
    ensures
        0 <= polygon_total(polygons, n),
        polygon_pieces(polygons_view(polygons), n).len() == polygon_total(polygons, n),
        0 <= i < n && 0 <= j < polygons[i].faces@.len() ==> {
            let at = polygon_total(polygons, i) + j;
            &&& 0 <= at < polygon_total(polygons, n)
            &&& polygon_pieces(polygons_view(polygons), n)[at] == polygons[i]@.piece(
                polygons[i].faces@[j],
            )
        },
    decreases n,
{
    if n > 0 {
        lemma_polygon_pieces(polygons, n - 1, i, j);
        assert(polygons_view(polygons)[n - 1] == polygons[n - 1]@);
        assert(polygons[n - 1]@.pieces().len() == polygons[n - 1].faces@.len());
    }
}

/// A mesh of meshed shells shows the triangles of each in order, one shell after the other, turned
/// as the shell says. There is none without triangles.
pub proof fn law_from_polygons<F: Fn(Triangle) -> Normal>(
    polygons: &Vec<Polygon>,
    normal: &F,
    r: Result<Mesh, StepError>,
    i: int,
    j: int,
)
    requires
        finds_normals(*normal),
        forall|i: int| 0 <= i < polygons@.len() ==> (#[trigger] polygons@[i])@.is_whole(),
        call_ensures(Mesh::from_polygons, (polygons, normal), r),
    ensures
        r is Ok <==> polygon_total(polygons@, polygons@.len() as int) > 0,
        r is Err ==> r matches Err(StepError::NoTriangles),
        r matches Ok(mesh) ==> mesh.vertices@.len() == 3 * polygon_total(
            polygons@,
            polygons@.len() as int,
        ),
        r matches Ok(mesh) ==> 0 <= i < polygons@.len() && 0 <= j < polygons@[i].faces@.len()
            ==> shows_face(
            *normal,
            mesh@,
            3 * (polygon_total(polygons@, i) + j),
            polygons@[i],
            polygons@[i].reversed,
            polygons@[i].faces@[j],
        ),
{
    let n = polygons@.len() as int;
    let pieces = polygon_pieces(polygons_view(polygons@), n);
    lemma_polygon_pieces(polygons@, n, i, j);
    if let Ok(mesh) = r {
        crate::mesh::laws::law_built(*normal, pieces, mesh@, 0);
        if 0 <= i < polygons@.len() && 0 <= j < polygons@[i].faces@.len() {
            let p = polygons@[i];
            assert(PolygonView { reversed: p.reversed, ..p@ } == p@);
            super::mesh_laws::lemma_shows_face(
                *normal,
                pieces,
                mesh@,
                polygon_total(polygons@, i) + j,
                p,
                p.reversed,
                p.faces@[j],
            );
        }
    }
}

/// The loader of STEP files loads exactly the bytes that it is given, whether normals are to be
/// calculated on demand or not.
pub proof fn law_from_step<
    S: Fn(Placement) -> bool,
    K: Fn(&Exchange, &Assembly, &Vec<Instance>) -> Vec<Option<Polygon>>,
    F: Fn(Triangle) -> Normal,
>(
    bytes: &[u8],
    recalc_normals: bool,
    is_singular: &S,
    tessellate: &K,
    normal: &F,
    r: Result<Mesh, StepError>,
)
    requires
        forall|p: Placement| #[trigger] call_requires(*is_singular, (p,)),
        meshes_shells(*tessellate),
        finds_normals(*normal),
        call_ensures(Mesh::from_step, (bytes, recalc_normals, is_singular, tessellate, normal), r),
    ensures
        is_step_load(*is_singular, *tessellate, *normal, bytes@, r),
{
}

} // verus!

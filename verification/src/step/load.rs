//! STEP files.
use ruststep::ast::Exchange;
use std::collections::HashSet;
use vstd::prelude::*;

use super::assembly::{last_definitions, origin_of, placement, Assembly, Placement};
use super::entity::EntityView;
use super::polygons::{all_whole, drawn, drawn_shapes, polygon_pieces, Polygon};
use super::syntax::{is_parsable, is_parse_error, parse_step, parsed_sections, sections, StepError};
use super::walk::{instances_view, is_instances, Instance};
use crate::mesh::triangles::{finds_normals, is_mesh_of, Mesh, Normal, Triangle};
use crate::text::utf8_lossy;

verus! {

/// The entities of the first data section of a STEP file, with the last definition of each id.
pub open spec fn step_entities(data: Seq<Seq<EntityView>>) -> Seq<EntityView> {
    last_definitions(data[0], data[0].len() as int)
}

/// Whether an entity is a placement that a mapped item moves onto a target.
pub open spec fn is_mapped_origin(es: Seq<EntityView>, id: u64) -> bool {
    exists|i: int| 0 <= i < es.len() && origin_of(es, #[trigger] es[i]) == Some(id)
}

/// Whether a set has those of the mapped origins that a function finds to have no inverse.
pub open spec fn is_singular_set<S: Fn(Placement) -> bool>(
    is_singular: S,
    es: Seq<EntityView>,
    singular: Set<u64>,
) -> bool {
    &&& forall|id: u64| #[trigger]
        singular.contains(id) ==> is_mapped_origin(es, id) && placement(es, id) is Some
            && call_ensures(is_singular, (placement(es, id)->0,), true)
    &&& forall|id: u64|
        #![trigger is_mapped_origin(es, id)]
        is_mapped_origin(es, id) && !singular.contains(id) ==> placement(es, id) is Some
            && call_ensures(is_singular, (placement(es, id)->0,), false)
}

/// A function that can mesh the shells of any STEP file: it gives the meshed shell of each
/// instance, as far as there is one.
pub open spec fn meshes_shells<
    K: Fn(&Exchange, &Assembly, &Vec<Instance>) -> Vec<Option<Polygon>>,
>(tessellate: K) -> bool {
    &&& forall|exchange: &Exchange, assembly: &Assembly, instances: &Vec<Instance>| #[trigger]
        call_requires(tessellate, (exchange, assembly, instances))
    &&& forall|
        exchange: &Exchange,
        assembly: &Assembly,
        instances: &Vec<Instance>,
        shapes: Vec<Option<Polygon>>,
    | #[trigger]
        call_ensures(tessellate, (exchange, assembly, instances), shapes) ==> shapes@.len()
            == instances@.len() && all_whole(shapes@)
}

/// Whether a result comes of a STEP file in steps: its entities, the mapped origins without an
/// inverse, the shells that the assembly structure places, the meshes of these, and the mesh of
/// them all.
pub open spec fn comes_of<
    S: Fn(Placement) -> bool,
    K: Fn(&Exchange, &Assembly, &Vec<Instance>) -> Vec<Option<Polygon>>,
    F: Fn(Triangle) -> Normal,
>(
    is_singular: S,
    tessellate: K,
    normal: F,
    exchange: Exchange,
    assembly: Assembly,
    singular: Set<u64>,
    instances: Vec<Instance>,
    shapes: Vec<Option<Polygon>>,
    r: Result<Mesh, StepError>,
) -> bool {
    let drawn = drawn_shapes(instances@, shapes@, instances@.len() as int);
    let pieces = polygon_pieces(drawn, drawn.len() as int);
    &&& assembly@ == step_entities(sections(exchange))
    &&& is_singular_set(is_singular, assembly@, singular)
    &&& is_instances(assembly@, singular, instances_view(instances@))
    &&& call_ensures(tessellate, (&exchange, &assembly, &instances), shapes)
    &&& match r {
        Ok(mesh) => is_mesh_of(normal, pieces, mesh@),
        Err(StepError::NoTriangles) => pieces.len() == 0,
        Err(_) => false,
    }
}

/// Whether a result is the right one for a STEP file that has data.
pub open spec fn is_step_result<
    S: Fn(Placement) -> bool,
    K: Fn(&Exchange, &Assembly, &Vec<Instance>) -> Vec<Option<Polygon>>,
    F: Fn(Triangle) -> Normal,
>(
    is_singular: S,
    tessellate: K,
    normal: F,
    data: Seq<Seq<EntityView>>,
    r: Result<Mesh, StepError>,
) -> bool {
    exists|
        exchange: Exchange,
        assembly: Assembly,
        singular: Set<u64>,
        instances: Vec<Instance>,
        shapes: Vec<Option<Polygon>>,
    |
        sections(exchange) == data && #[trigger] comes_of(
            is_singular,
            tessellate,
            normal,
            exchange,
            assembly,
            singular,
            instances,
            shapes,
            r,
        )
}

impl Assembly {
    /// Those of the mapped origins that have no inverse.
    fn singular_origins<S: Fn(Placement) -> bool>(&self, is_singular: &S) -> (r: HashSet<u64>)
        requires
            self.wf(),
            forall|p: Placement| #[trigger] call_requires(*is_singular, (p,)),
        ensures
            is_singular_set(*is_singular, self@, r@),
    {
        let origins = self.mapped_origins();
        let ghost es = self@;
        let mut r: HashSet<u64> = HashSet::new();
        let mut done: HashSet<u64> = HashSet::new();
        for i in 0..origins.len()
            invariant
                self.wf(),
                es == self@,
                forall|p: Placement| #[trigger] call_requires(*is_singular, (p,)),
                forall|id: u64| #[trigger] origins@.contains(id) <==> is_mapped_origin(es, id),
                forall|j: int| 0 <= j < i ==> done@.contains(#[trigger] origins@[j]),
                forall|id: u64| #[trigger] r@.contains(id) ==> done@.contains(id),
                forall|id: u64| #[trigger]
                    done@.contains(id) ==> is_mapped_origin(es, id) && placement(es, id) is Some
                        && call_ensures(
                        *is_singular,
                        (placement(es, id)->0,),
                        r@.contains(id),
                    ),
        {
            let id = origins[i];
            assert(origins@.contains(id));
            let fresh = done.insert(id);
            if fresh {
                proof {
                    let k = choose|k: int|
                        0 <= k < es.len() && origin_of(es, #[trigger] es[k]) == Some(id);
                    assert(placement(es, id) is Some);
                }
                if let Some(p) = self.placement(id) {
                    if is_singular(p) {
                        r.insert(id);
                    }
                }
            }
        }
        assert forall|id: u64|
            #![trigger is_mapped_origin(es, id)]
            is_mapped_origin(es, id) && !r@.contains(id) implies placement(es, id) is Some
            && call_ensures(*is_singular, (placement(es, id)->0,), false) by {
            assert(origins@.contains(id));
            let j = choose|j: int| 0 <= j < origins@.len() && origins@[j] == id;
            assert(done@.contains(origins@[j]));
        }
        r
    }
}

/// Whether a result is the right one for a STEP file.
pub open spec fn is_step_load<
    S: Fn(Placement) -> bool,
    K: Fn(&Exchange, &Assembly, &Vec<Instance>) -> Vec<Option<Polygon>>,
    F: Fn(Triangle) -> Normal,
>(is_singular: S, tessellate: K, normal: F, bytes: Seq<u8>, r: Result<Mesh, StepError>) -> bool {
    let text = utf8_lossy(bytes);
    if !is_parsable(text) {
        r matches Err(StepError::Unsupported)
    } else {
        match parsed_sections(text) {
            None => r matches Err(StepError::Parse { rests, report }) && is_parse_error(
                text,
                rests@,
                report,
            ),
            Some(data) => if data.len() == 0 {
                r matches Err(StepError::NoData)
            } else {
                is_step_result(is_singular, tessellate, normal, data, r)
            },
        }
    }
}

impl Mesh {
    /// The mesh of a STEP file. `is_singular` tells whether a placement has no inverse,
    /// `tessellate` meshes shells and places them, `normal` calculates the normal of a triangle.
    pub fn from_step<
        S: Fn(Placement) -> bool,
        K: Fn(&Exchange, &Assembly, &Vec<Instance>) -> Vec<Option<Polygon>>,
        F: Fn(Triangle) -> Normal,
    >(
        bytes: &[u8],
        _recalc_normals: bool,
        is_singular: &S,
        tessellate: &K,
        normal: &F,
    ) -> (r: Result<Mesh, StepError>)
        requires
            forall|p: Placement| #[trigger] call_requires(*is_singular, (p,)),
            meshes_shells(*tessellate),
            finds_normals(*normal),
        ensures
            is_step_load(*is_singular, *tessellate, *normal, bytes@, r),
    {
        let exchange = match parse_step(bytes) {
            Ok(exchange) => exchange,
            Err(error) => return Err(error),
        };
        let assembly = match Assembly::of(&exchange) {
            Ok(assembly) => assembly,
            Err(error) => return Err(error),
        };
        let singular = assembly.singular_origins(is_singular);
        let instances = assembly.shell_instances(&singular);
        let shapes = tessellate(&exchange, &assembly, &instances);
        let ghost all = shapes;
        let polygons = drawn(&instances, shapes);
        let r = Mesh::from_polygons(&polygons, normal);
        assert(comes_of(
            *is_singular,
            *tessellate,
            *normal,
            exchange,
            assembly,
            singular@,
            instances,
            shapes,
            r,
        ));
        r
    }
}

} // verus!

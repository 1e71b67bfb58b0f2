//! What holds of the objects that a package shows.
use vstd::prelude::*;

use super::model::{Face, Object, ObjectView, PlacementView, Transform, TransformView};
use super::package::{distinct_paths, file_at, lemma_file_at, package_value, FileView};
use super::scene::{
    components_drawn, face_piece, fits, fitting, is_3mf_load, law_scene_valid,
    lemma_components_drawn, lemma_fitting, lemma_object_drawn, object_at, object_drawn,
    objects_in_place, placed_by, placed_components, placed_items, placed_object, placed_view, scene,
    scene_mesh, scene_pieces, PlacedObject, PlacedView, Positions, SceneError, ThreeMfError,
};
use crate::mesh::laws::{has_hull, is_calculated, law_built, shows};
use crate::mesh::triangles::{finds_normals, is_mesh_of, Mesh, MeshView, Normal, Triangle};

verus! {

// ---------------------------------------------------------------------------
// Objects
// ---------------------------------------------------------------------------

/// An object is the one that the file with the path has under the id, and there is none if there
/// is no such file, or if the file has no such object.
pub proof fn law_object_at(files: Seq<FileView>, path: Seq<char>, id: u64, i: int)
    requires
        distinct_paths(files),
    ensures
        0 <= i < files.len() && files[i].path == path ==> {
            let objects = files[i].model.objects;
            &&& objects.contains_key(id) ==> object_at(files, path, id) == Some(objects[id])
            &&& !objects.contains_key(id) ==> object_at(files, path, id) is None
        },
        (forall|k: int| 0 <= k < files.len() ==> (#[trigger] files[k]).path != path) ==> object_at(
            files,
            path,
            id,
        ) is None,
{
    lemma_file_at(files, path);
    if 0 <= i < files.len() && files[i].path == path {
        if let Some(k) = file_at(files, path) {
            assert(files[i].path == files[k].path);
        }
    }
}

/// Whether every triangle of an object references vertices that exist.
pub open spec fn is_sound(object: ObjectView) -> bool {
    forall|i: int|
        0 <= i < object.triangles.len() ==> {
            let face = #[trigger] object.triangles[i];
            face.a < object.vertices.len() && face.b < object.vertices.len() && face.c
                < object.vertices.len()
        }
}

proof fn lemma_sound(object: ObjectView)
    ensures
        object.has_its_vertices() <==> is_sound(object),
{
    if object.has_its_vertices() {
        assert forall|i: int| 0 <= i < object.triangles.len() implies ({
            let face = #[trigger] object.triangles[i];
            face.a < object.vertices.len() && face.b < object.vertices.len() && face.c
                < object.vertices.len()
        }) by {
            assert(fits(object.triangles[i], object.vertices.len()));
        }
    }
}

/// The path that a placement goes to: its own, or else that of the file that it stands in.
pub open spec fn goes_to(p: PlacementView, path: Seq<char>) -> Seq<char> {
    if p.path is Some {
        p.path->0
    } else {
        path
    }
}

/// Whether parts are what the components of an object add, each by itself: the object that it
/// places, one level deeper, with the transform of the component behind those of the object.
pub open spec fn are_parts(
    files: Seq<FileView>,
    path: Seq<char>,
    components: Seq<PlacementView>,
    transforms: Seq<TransformView>,
    depth: int,
    parts: Seq<Seq<PlacedView>>,
) -> bool {
    forall|i: int|
        0 <= i < parts.len() ==> placed_object(
            files,
            goes_to(components[i], path),
            components[i].objectid,
            transforms.push(components[i].transform),
            depth + 1,
        ) == Ok::<_, SceneError>(#[trigger] parts[i])
}

/// An object adds itself, whole and with the transforms that lead to it, and behind it what its
/// components add, one after the other. An object that does not exist adds nothing.
pub proof fn law_object_parts(
    files: Seq<FileView>,
    path: Seq<char>,
    id: u64,
    transforms: Seq<TransformView>,
    depth: int,
    parts: Seq<Seq<PlacedView>>,
)
    requires
        depth <= 32,
    ensures
        object_at(files, path, id) is None ==> placed_object(files, path, id, transforms, depth)
            == Ok::<_, SceneError>(Seq::<PlacedView>::empty()),
        object_at(files, path, id) matches Some(object) ==> is_sound(object) && parts.len()
            == object.components.len() && are_parts(
            files,
            path,
            object.components,
            transforms,
            depth,
            parts,
        ) ==> placed_object(files, path, id, transforms, depth) == Ok::<_, SceneError>(
            seq![
                PlacedView { object, transforms, triangles: object.triangles.len() as int },
            ] + parts.flatten_alt(),
        ),
{
    if let Some(object) = object_at(files, path, id) {
        lemma_sound(object);
        if parts.len() == object.components.len() && are_parts(
            files,
            path,
            object.components,
            transforms,
            depth,
            parts,
        ) {
            lemma_parts(files, path, object.components, transforms, depth, parts);
        }
    }
}

proof fn lemma_parts(
    files: Seq<FileView>,
    path: Seq<char>,
    components: Seq<PlacementView>,
    transforms: Seq<TransformView>,
    depth: int,
    parts: Seq<Seq<PlacedView>>,
)
    requires
        depth <= 32,
        parts.len() == components.len(),
        are_parts(files, path, components, transforms, depth, parts),
    ensures
        placed_components(files, path, components, transforms, depth) == Ok::<_, SceneError>(
            parts.flatten_alt(),
        ),
    decreases components.len(),
{
    if components.len() > 0 {
        let rest = components.drop_last();
        let before = parts.drop_last();
        assert forall|i: int| 0 <= i < before.len() implies placed_object(
            files,
            goes_to(rest[i], path),
            rest[i].objectid,
            transforms.push(rest[i].transform),
            depth + 1,
        ) == Ok::<_, SceneError>(#[trigger] before[i]) by {
            assert(before[i] == parts[i]);
        }
        lemma_parts(files, path, rest, transforms, depth, before);
        assert(parts[parts.len() - 1] == parts.last());
    }
}

/// Components that are nested more than 32 levels deep are refused. So is a triangle that
/// references a vertex that does not exist, and an object with a component that is refused, for
/// the same reason as the first such component.
pub proof fn law_object_refused(
    files: Seq<FileView>,
    path: Seq<char>,
    id: u64,
    transforms: Seq<TransformView>,
    depth: int,
    parts: Seq<Seq<PlacedView>>,
    error: SceneError,
)
    ensures
        depth > 32 ==> placed_object(files, path, id, transforms, depth) == Err::<
            Seq<PlacedView>,
            _,
        >(SceneError::TooDeep),
        depth <= 32 ==> (object_at(files, path, id) matches Some(object) ==> {
            &&& !is_sound(object) ==> placed_object(files, path, id, transforms, depth) == Err::<
                Seq<PlacedView>,
                _,
            >(SceneError::MissingVertex)
            &&& is_sound(object) && parts.len() < object.components.len() && are_parts(
                files,
                path,
                object.components,
                transforms,
                depth,
                parts,
            ) && placed_object(
                files,
                goes_to(object.components[parts.len() as int], path),
                object.components[parts.len() as int].objectid,
                transforms.push(object.components[parts.len() as int].transform),
                depth + 1,
            ) == Err::<Seq<PlacedView>, _>(error) ==> placed_object(
                files,
                path,
                id,
                transforms,
                depth,
            ) == Err::<Seq<PlacedView>, _>(error)
        }),
{
    if depth <= 32 {
        if let Some(object) = object_at(files, path, id) {
            lemma_sound(object);
            let n = parts.len() as int;
            if n < object.components.len() && are_parts(
                files,
                path,
                object.components,
                transforms,
                depth,
                parts,
            ) {
                let c = object.components[n];
                if placed_object(
                    files,
                    goes_to(c, path),
                    c.objectid,
                    transforms.push(c.transform),
                    depth + 1,
                ) == Err::<Seq<PlacedView>, _>(error) {
                    lemma_first_refused(
                        files,
                        path,
                        object.components,
                        transforms,
                        depth,
                        parts,
                        error,
                    );
                }
            }
        }
    }
}

proof fn lemma_first_refused(
    files: Seq<FileView>,
    path: Seq<char>,
    components: Seq<PlacementView>,
    transforms: Seq<TransformView>,
    depth: int,
    parts: Seq<Seq<PlacedView>>,
    error: SceneError,
)
    requires
        depth <= 32,
        parts.len() < components.len(),
        are_parts(files, path, components, transforms, depth, parts),
        placed_object(
            files,
            goes_to(components[parts.len() as int], path),
            components[parts.len() as int].objectid,
            transforms.push(components[parts.len() as int].transform),
            depth + 1,
        ) == Err::<Seq<PlacedView>, _>(error),
    ensures
        placed_components(files, path, components, transforms, depth) == Err::<Seq<PlacedView>, _>(
            error,
        ),
    decreases components.len(),
{
    let rest = components.drop_last();
    assert forall|i: int| 0 <= i < parts.len() && i < rest.len() implies placed_object(
        files,
        goes_to(rest[i], path),
        rest[i].objectid,
        transforms.push(rest[i].transform),
        depth + 1,
    ) == Ok::<_, SceneError>(#[trigger] parts[i]) by {
        assert(rest[i] == components[i]);
    }
    if parts.len() < rest.len() {
        assert(rest[parts.len() as int] == components[parts.len() as int]);
        lemma_first_refused(files, path, rest, transforms, depth, parts, error);
    } else {
        lemma_parts(files, path, rest, transforms, depth, parts);
    }
}

/// Whether a number of triangles of an object reference vertices that exist, and the next does
/// not.
pub open spec fn is_fault(object: ObjectView, k: int) -> bool {
    let count = object.vertices.len();
    &&& 0 <= k < object.triangles.len()
    &&& !(object.triangles[k].a < count && object.triangles[k].b < count && object.triangles[k].c
        < count)
    &&& forall|j: int|
        0 <= j < k ==> (#[trigger] object.triangles[j]).a < count && object.triangles[j].b < count
            && object.triangles[j].c < count
}

/// What adding an object has added when it ends is all of it, if nothing is wrong. If a triangle
/// references a vertex that does not exist, it is the triangles before that one. If a component
/// is refused, it is the object, the components before that one, and what that one has added.
pub proof fn law_drawn(
    files: Seq<FileView>,
    path: Seq<char>,
    id: u64,
    transforms: Seq<TransformView>,
    depth: int,
    k: int,
    parts: Seq<Seq<PlacedView>>,
)
    ensures
        placed_object(files, path, id, transforms, depth) matches Ok(placed) ==> object_drawn(
            files,
            path,
            id,
            transforms,
            depth,
        ) == placed,
        depth > 32 ==> object_drawn(files, path, id, transforms, depth).len() == 0,
        depth <= 32 ==> (object_at(files, path, id) matches Some(object) ==> {
            &&& is_fault(object, k) ==> object_drawn(files, path, id, transforms, depth) == seq![
                PlacedView { object, transforms, triangles: k },
            ]
            &&& is_sound(object) && parts.len() < object.components.len() && are_parts(
                files,
                path,
                object.components,
                transforms,
                depth,
                parts,
            ) && placed_object(
                files,
                goes_to(object.components[parts.len() as int], path),
                object.components[parts.len() as int].objectid,
                transforms.push(object.components[parts.len() as int].transform),
                depth + 1,
            ) is Err ==> object_drawn(files, path, id, transforms, depth) == seq![
                PlacedView { object, transforms, triangles: object.triangles.len() as int },
            ] + (parts.flatten_alt() + object_drawn(
                files,
                goes_to(object.components[parts.len() as int], path),
                object.components[parts.len() as int].objectid,
                transforms.push(object.components[parts.len() as int].transform),
                depth + 1,
            ))
        }),
{
    lemma_object_drawn(files, path, id, transforms, depth);
    if depth <= 32 {
        if let Some(object) = object_at(files, path, id) {
            lemma_sound(object);
            if is_fault(object, k) {
                let count = object.vertices.len();
                lemma_fitting(object.triangles, count);
                let n = fitting(object.triangles, count);
                assert(!fits(object.triangles[k], count));
                assert(!object.has_its_vertices());
                if n < k {
                    assert(fits(object.triangles[n], count));
                } else if n > k {
                    assert(fits(object.triangles[k], count));
                }
            }
            let m = parts.len() as int;
            if is_sound(object) && m < object.components.len() && are_parts(
                files,
                path,
                object.components,
                transforms,
                depth,
                parts,
            ) {
                let c = object.components[m];
                if placed_object(
                    files,
                    goes_to(c, path),
                    c.objectid,
                    transforms.push(c.transform),
                    depth + 1,
                ) is Err {
                    lemma_components_drawn_to(
                        files,
                        path,
                        object.components,
                        transforms,
                        depth,
                        parts,
                    );
                }
            }
        }
    }
}

proof fn lemma_components_drawn_to(
    files: Seq<FileView>,
    path: Seq<char>,
    components: Seq<PlacementView>,
    transforms: Seq<TransformView>,
    depth: int,
    parts: Seq<Seq<PlacedView>>,
)
    requires
        depth <= 32,
        parts.len() < components.len(),
        are_parts(files, path, components, transforms, depth, parts),
        placed_object(
            files,
            goes_to(components[parts.len() as int], path),
            components[parts.len() as int].objectid,
            transforms.push(components[parts.len() as int].transform),
            depth + 1,
        ) is Err,
    ensures
        components_drawn(files, path, components, transforms, depth) == parts.flatten_alt()
            + object_drawn(
            files,
            goes_to(components[parts.len() as int], path),
            components[parts.len() as int].objectid,
            transforms.push(components[parts.len() as int].transform),
            depth + 1,
        ),
    decreases components.len(),
{
    let rest = components.drop_last();
    assert forall|i: int| 0 <= i < parts.len() && i < rest.len() implies placed_object(
        files,
        goes_to(rest[i], path),
        rest[i].objectid,
        transforms.push(rest[i].transform),
        depth + 1,
    ) == Ok::<_, SceneError>(#[trigger] parts[i]) by {
        assert(rest[i] == components[i]);
    }
    if parts.len() < rest.len() {
        let c = rest[parts.len() as int];
        assert(c == components[parts.len() as int]);
        lemma_components_drawn_to(files, path, rest, transforms, depth, parts);
        let error = placed_object(
            files,
            goes_to(c, path),
            c.objectid,
            transforms.push(c.transform),
            depth + 1,
        )->Err_0;
        lemma_first_refused(files, path, rest, transforms, depth, parts, error);
    } else {
        lemma_parts(files, path, rest, transforms, depth, parts);
        lemma_components_drawn(files, path, rest, transforms, depth);
    }
}

/// A package shows what the build items of its root model place, one after the other: each the
/// object with its id, in its own file or else in that of the root model, with its transform.
pub proof fn law_scene_items(files: Seq<FileView>, root: int, parts: Seq<Seq<PlacedView>>)
    requires
        files[root].model.build.len() > 0,
        parts.len() == files[root].model.build.len(),
        forall|i: int|
            0 <= i < parts.len() ==> placed_object(
                files,
                goes_to(files[root].model.build[i], files[root].path),
                files[root].model.build[i].objectid,
                seq![files[root].model.build[i].transform],
                0,
            ) == Ok::<_, SceneError>(#[trigger] parts[i]),
    ensures
        scene(files, root) == Ok::<_, SceneError>(parts.flatten_alt()),
{
    lemma_items(files, files[root].path, files[root].model.build, parts);
}

proof fn lemma_items(
    files: Seq<FileView>,
    path: Seq<char>,
    items: Seq<PlacementView>,
    parts: Seq<Seq<PlacedView>>,
)
    requires
        parts.len() == items.len(),
        forall|i: int|
            0 <= i < parts.len() ==> placed_object(
                files,
                goes_to(items[i], path),
                items[i].objectid,
                seq![items[i].transform],
                0,
            ) == Ok::<_, SceneError>(#[trigger] parts[i]),
    ensures
        placed_items(files, path, items) == Ok::<_, SceneError>(parts.flatten_alt()),
    decreases items.len(),
{
    if items.len() > 0 {
        let rest = items.drop_last();
        let before = parts.drop_last();
        assert forall|i: int| 0 <= i < before.len() implies placed_object(
            files,
            goes_to(rest[i], path),
            rest[i].objectid,
            seq![rest[i].transform],
            0,
        ) == Ok::<_, SceneError>(#[trigger] before[i]) by {
            assert(before[i] == parts[i]);
        }
        lemma_items(files, path, rest, before);
        assert(parts[parts.len() - 1] == parts.last());
    }
}

/// A package whose root model has no build items shows every object of that file where it is.
pub proof fn law_scene_objects(files: Seq<FileView>, root: int, parts: Seq<Seq<PlacedView>>)
    requires
        files[root].model.build.len() == 0,
        parts.len() == files[root].model.ids.len(),
        forall|i: int|
            0 <= i < parts.len() ==> placed_object(
                files,
                files[root].path,
                files[root].model.ids[i],
                Seq::empty(),
                0,
            ) == Ok::<_, SceneError>(#[trigger] parts[i]),
    ensures
        scene(files, root) == Ok::<_, SceneError>(parts.flatten_alt()),
{
    lemma_ids(files, files[root].path, files[root].model.ids, parts);
}

proof fn lemma_ids(
    files: Seq<FileView>,
    path: Seq<char>,
    ids: Seq<u64>,
    parts: Seq<Seq<PlacedView>>,
)
    requires
        parts.len() == ids.len(),
        forall|i: int|
            0 <= i < parts.len() ==> placed_object(files, path, ids[i], Seq::empty(), 0) == Ok::<
                _,
                SceneError,
            >(#[trigger] parts[i]),
    ensures
        objects_in_place(files, path, ids) == Ok::<_, SceneError>(parts.flatten_alt()),
    decreases ids.len(),
{
    if ids.len() > 0 {
        let rest = ids.drop_last();
        let before = parts.drop_last();
        assert forall|i: int| 0 <= i < before.len() implies placed_object(
            files,
            path,
            rest[i],
            Seq::empty(),
            0,
        ) == Ok::<_, SceneError>(#[trigger] before[i]) by {
            assert(before[i] == parts[i]);
        }
        lemma_ids(files, path, rest, before);
        assert(parts[parts.len() - 1] == parts.last());
    }
}

/// A package is refused if something that it shows is refused, for the same reason as the first
/// such thing.
pub proof fn law_scene_refused(
    files: Seq<FileView>,
    root: int,
    parts: Seq<Seq<PlacedView>>,
    error: SceneError,
)
    requires
        ({
            let build = files[root].model.build;
            let n = parts.len() as int;
            &&& n < build.len()
            &&& forall|i: int|
                0 <= i < n ==> placed_object(
                    files,
                    goes_to(build[i], files[root].path),
                    build[i].objectid,
                    seq![build[i].transform],
                    0,
                ) == Ok::<_, SceneError>(#[trigger] parts[i])
            &&& placed_object(
                files,
                goes_to(build[n], files[root].path),
                build[n].objectid,
                seq![build[n].transform],
                0,
            ) == Err::<Seq<PlacedView>, _>(error)
        }),
    ensures
        scene(files, root) == Err::<Seq<PlacedView>, _>(error),
{
    lemma_item_refused(files, files[root].path, files[root].model.build, parts, error);
}

proof fn lemma_item_refused(
    files: Seq<FileView>,
    path: Seq<char>,
    items: Seq<PlacementView>,
    parts: Seq<Seq<PlacedView>>,
    error: SceneError,
)
    requires
        parts.len() < items.len(),
        forall|i: int|
            0 <= i < parts.len() ==> placed_object(
                files,
                goes_to(items[i], path),
                items[i].objectid,
                seq![items[i].transform],
                0,
            ) == Ok::<_, SceneError>(#[trigger] parts[i]),
        placed_object(
            files,
            goes_to(items[parts.len() as int], path),
            items[parts.len() as int].objectid,
            seq![items[parts.len() as int].transform],
            0,
        ) == Err::<Seq<PlacedView>, _>(error),
    ensures
        placed_items(files, path, items) == Err::<Seq<PlacedView>, _>(error),
    decreases items.len(),
{
    let rest = items.drop_last();
    assert forall|i: int| 0 <= i < parts.len() && i < rest.len() implies placed_object(
        files,
        goes_to(rest[i], path),
        rest[i].objectid,
        seq![rest[i].transform],
        0,
    ) == Ok::<_, SceneError>(#[trigger] parts[i]) by {
        assert(rest[i] == items[i]);
    }
    if parts.len() < rest.len() {
        assert(rest[parts.len() as int] == items[parts.len() as int]);
        lemma_item_refused(files, path, rest, parts, error);
    } else {
        lemma_items(files, path, rest, parts);
    }
}

// ---------------------------------------------------------------------------
// Triangles
// ---------------------------------------------------------------------------

/// How many triangles the first of several placed objects have.
pub open spec fn triangle_total(all: Seq<PlacedView>, k: int) -> int
    decreases k,
{
    if k <= 0 {
        0
    } else {
        triangle_total(all, k - 1) + all[k - 1].triangles
    }
}

/// Whether a mesh shows a triangle of a placed object from a vertex on: its corners in order, or
/// with the last two changed over if the object is mirrored.
pub open spec fn shows_face(m: MeshView, n: int, positions: Positions, face: Face) -> bool {
    let vs = positions.vertices@;
    &&& 0 <= n && n + 2 < m.vertices.len()
    &&& m.vertices[n].position == vs[face.a as int]
    &&& m.vertices[n + 1].position == if positions.mirrored {
        vs[face.c as int]
    } else {
        vs[face.b as int]
    }
    &&& m.vertices[n + 2].position == if positions.mirrored {
        vs[face.b as int]
    } else {
        vs[face.c as int]
    }
}

proof fn lemma_scene_pieces(
    all: Seq<PlacedView>,
    positions: Seq<Positions>,
    n: int,
    k: int,
    j: int,
)
    requires
        0 <= n <= all.len(),
        all.len() == positions.len(),
        forall|i: int|
            0 <= i < all.len() ==> 0 <= (#[trigger] all[i]).triangles
                <= all[i].object.triangles.len(),
    ensures
        scene_pieces(all, positions, n).len() == triangle_total(all, n),
        0 <= triangle_total(all, n),
        0 <= k < n && 0 <= j < all[k].triangles ==> {
            let at = triangle_total(all, k) + j;
            &&& 0 <= at < triangle_total(all, n)
            &&& scene_pieces(all, positions, n)[at] == face_piece(
                positions[k].vertices@,
                positions[k].mirrored,
                all[k].object.triangles[j],
            )
        },
    decreases n,
{
    if n > 0 {
        lemma_scene_pieces(all, positions, n - 1, k, j);
        assert(0 <= all[n - 1].triangles <= all[n - 1].object.triangles.len());
    }
}

/// Whether a mesh is made of placed objects whose vertices a function gave: the triangles of each
/// object in order, one object after the other, all of them with calculated normals.
pub open spec fn shows_objects<
    P: Fn(&Object, &Vec<&Transform>) -> Positions,
    F: Fn(Triangle) -> Normal,
>(
    place: P,
    normal: F,
    all: Seq<PlacedView>,
    placed: Seq<PlacedObject>,
    positions: Seq<Positions>,
    m: MeshView,
) -> bool {
    &&& placed.len() == all.len() && positions.len() == all.len()
    &&& forall|k: int|
        0 <= k < all.len() ==> (#[trigger] placed[k])@ == all[k] && call_ensures(
            place,
            (placed[k].object, &placed[k].transforms),
            positions[k],
        )
    &&& m.vertices.len() == 3 * triangle_total(all, all.len() as int)
    &&& m.normals.len() == m.vertices.len()
    &&& forall|k: int, j: int|
        #![trigger all[k].object.triangles[j]]
        0 <= k < all.len() && 0 <= j < all[k].object.triangles.len() ==> {
            let n = 3 * (triangle_total(all, k) + j);
            &&& shows_face(m, n, positions[k], all[k].object.triangles[j])
            &&& is_calculated(
                normal,
                m,
                n,
                Triangle {
                    a: m.vertices[n].position,
                    b: m.vertices[n + 1].position,
                    c: m.vertices[n + 2].position,
                },
            )
        }
}

/// The mesh of a 3MF file shows every triangle of every object that the package shows, in order,
/// with its own corners, and nothing else. An object that is mirrored has its triangles turned
/// back. All normals are calculated. The box is the smallest around the vertices.
pub proof fn law_3mf<P: Fn(&Object, &Vec<&Transform>) -> Positions, F: Fn(Triangle) -> Normal>(
    place: P,
    normal: F,
    bytes: Seq<u8>,
    mesh: Mesh,
)
    requires
        is_3mf_load(place, normal, bytes, Ok(mesh)),
    ensures
        package_value(bytes) is Ok,
        ({
            let (files, root) = package_value(bytes)->Ok_0;
            &&& scene(files, root) is Ok
            &&& exists|placed: Seq<PlacedObject>, positions: Seq<Positions>| #[trigger]
                shows_objects(
                    place,
                    normal,
                    scene(files, root)->Ok_0,
                    placed,
                    positions,
                    mesh@,
                )
        }),
        mesh.vertices@.len() > 0,
        mesh.indices@.len() == 0,
        !mesh.model_had_normals,
        has_hull(mesh@, mesh.vertices@[0].position),
{
    let (files, root) = package_value(bytes)->Ok_0;
    let all = scene(files, root)->Ok_0;
    law_scene_valid(files, root);
    let (placed, positions) = choose|placed: Seq<PlacedObject>, positions: Seq<Positions>|
        placed_view(placed) == all && #[trigger] placed_by(place, placed, positions) && is_mesh_of(
            normal,
            scene_pieces(all, positions, all.len() as int),
            mesh@,
        );
    let pieces = scene_pieces(all, positions, all.len() as int);
    assert(placed_view(placed).len() == placed.len());
    let m = mesh@;
    assert forall|i: int| 0 <= i < all.len() implies 0 <= (#[trigger] all[i]).triangles
        <= all[i].object.triangles.len() by {
    }
    lemma_scene_pieces(all, positions, all.len() as int, 0, 0);
    law_built(normal, pieces, m, 0);
    assert(pieces.len() > 0);
    lemma_no_normals(all, positions, all.len() as int);
    assert(pieces[0].normals is None);
    assert forall|k: int| 0 <= k < all.len() implies (#[trigger] placed[k])@ == all[k]
        && call_ensures(place, (placed[k].object, &placed[k].transforms), positions[k]) by {
        assert(placed_view(placed)[k] == placed[k]@);
        assert(positions[k] == positions[k]);
    }
    assert forall|k: int, j: int|
        #![trigger all[k].object.triangles[j]]
        0 <= k < all.len() && 0 <= j < all[k].object.triangles.len() implies ({
        let n = 3 * (triangle_total(all, k) + j);
        &&& shows_face(m, n, positions[k], all[k].object.triangles[j])
        &&& is_calculated(
            normal,
            m,
            n,
            Triangle {
                a: m.vertices[n].position,
                b: m.vertices[n + 1].position,
                c: m.vertices[n + 2].position,
            },
        )
    }) by {
        assert(all[k].triangles == all[k].object.triangles.len());
        lemma_scene_pieces(all, positions, all.len() as int, k, j);
        let at = triangle_total(all, k) + j;
        law_built(normal, pieces, m, at);
        assert(shows(m, 3 * at, pieces[at].triangle));
        let t = pieces[at].triangle;
        assert(t == Triangle {
            a: m.vertices[3 * at].position,
            b: m.vertices[3 * at + 1].position,
            c: m.vertices[3 * at + 2].position,
        });
    }
    assert(shows_objects(place, normal, all, placed, positions, m));
}

proof fn lemma_no_normals(all: Seq<PlacedView>, positions: Seq<Positions>, n: int)
    ensures
        forall|i: int|
            0 <= i < scene_pieces(all, positions, n).len() ==> (#[trigger] scene_pieces(
                all,
                positions,
                n,
            )[i]).normals is None,
    decreases n,
{
    if n > 0 {
        lemma_no_normals(all, positions, n - 1);
    }
}

/// A 3MF file gives an error if the package cannot be read, if what it shows is refused, or if
/// nothing that it shows has triangles, and no other.
pub proof fn law_3mf_refused<
    P: Fn(&Object, &Vec<&Transform>) -> Positions,
    F: Fn(Triangle) -> Normal,
>(place: P, normal: F, bytes: Seq<u8>, r: Result<Mesh, ThreeMfError>)
    requires
        is_3mf_load(place, normal, bytes, r),
    ensures
        package_value(bytes) matches Err(fault) ==> r matches Err(ThreeMfError::Package(e)) && e@
            == fault,
        package_value(bytes) matches Ok((files, root)) ==> match scene(files, root) {
            Err(error) => r == Err::<Mesh, _>(ThreeMfError::Scene(error)),
            Ok(all) => (r is Ok || r == Err::<Mesh, _>(ThreeMfError::NoTriangles)) && (r is Ok
                <==> exists|k: int|
                0 <= k < all.len() && (#[trigger] all[k]).object.triangles.len() > 0),
        },
{
    if let Ok((files, root)) = package_value(bytes) {
        if let Ok(all) = scene(files, root) {
            law_scene_valid(files, root);
            let mesh = match r {
                Ok(mesh) => Some(mesh),
                Err(_) => None,
            };
            let (placed, positions) = choose|placed: Seq<PlacedObject>, positions: Seq<Positions>|
                placed_view(placed) == all && #[trigger] placed_by(place, placed, positions)
                    && match mesh {
                    Some(mesh) => is_mesh_of(
                        normal,
                        scene_pieces(all, positions, all.len() as int),
                        mesh@,
                    ),
                    None => scene_pieces(all, positions, all.len() as int).len() == 0,
                };
            assert(placed_view(placed).len() == placed.len());
            assert forall|i: int| 0 <= i < all.len() implies 0 <= (#[trigger] all[i]).triangles
                <= all[i].object.triangles.len() by {
            }
            lemma_scene_pieces(all, positions, all.len() as int, 0, 0);
            lemma_total(all, all.len() as int);
            assert forall|k: int| 0 <= k < all.len() implies (#[trigger] all[k]).triangles
                == all[k].object.triangles.len() by {
            }
        }
    }
}

proof fn lemma_total(all: Seq<PlacedView>, n: int)
    requires
        0 <= n <= all.len(),
        forall|i: int| 0 <= i < all.len() ==> 0 <= (#[trigger] all[i]).triangles,
    ensures
        0 <= triangle_total(all, n),
        triangle_total(all, n) > 0 <==> exists|k: int|
            0 <= k < n && (#[trigger] all[k]).triangles > 0,
    decreases n,
{
    if n > 0 {
        lemma_total(all, n - 1);
        assert(0 <= all[n - 1].triangles);
        if triangle_total(all, n) > 0 && triangle_total(all, n - 1) == 0 {
            assert(all[n - 1].triangles > 0);
        }
    }
}

/// A mesh of placed objects shows the triangles of each that are drawn, in order, one object after
/// the other. There is none if there are no triangles.
pub proof fn law_scene_mesh<F: Fn(Triangle) -> Normal>(
    placed: &Vec<PlacedObject>,
    positions: &Vec<Positions>,
    normal: &F,
    r: Option<Mesh>,
    all: Seq<PlacedView>,
    k: int,
    j: int,
)
    requires
        finds_normals(*normal),
        positions@.len() == placed@.len(),
        forall|i: int|
            0 <= i < placed@.len() ==> (#[trigger] placed@[i])@.is_drawable()
                && positions@[i].vertices@.len() == placed@[i].object@.vertices.len(),
        call_ensures(scene_mesh, (placed, positions, normal), r),
        all.len() == placed@.len(),
        forall|i: int| 0 <= i < all.len() ==> #[trigger] all[i] == placed@[i]@,
    ensures
        r is None <==> triangle_total(all, all.len() as int) == 0,
        r matches Some(mesh) ==> mesh.vertices@.len() == 3 * triangle_total(
            all,
            all.len() as int,
        ),
        r matches Some(mesh) ==> 0 <= k < all.len() && 0 <= j < all[k].triangles ==> shows_face(
            mesh@,
            3 * (triangle_total(all, k) + j),
            positions@[k],
            all[k].object.triangles[j],
        ),
{
    assert(all =~= placed_view(placed@));
    let pieces = scene_pieces(all, positions@, all.len() as int);
    assert forall|i: int| 0 <= i < all.len() implies 0 <= (#[trigger] all[i]).triangles
        <= all[i].object.triangles.len() by {
        assert(placed@[i]@.is_drawable());
    }
    lemma_scene_pieces(all, positions@, all.len() as int, k, j);
    if let Some(mesh) = r {
        law_built(*normal, pieces, mesh@, triangle_total(all, k) + j);
    }
}

} // verus!

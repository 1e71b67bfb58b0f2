//! The objects of a 3MF package where its build items and components place them.
use vstd::prelude::*;

use super::model::{
    placements_view, Face, Object, ObjectView, Placement, PlacementView, Transform, TransformView,
};
use super::package::{
    file_at, files_view, find_file, package_value, read_package, File, FileView, Package,
    PackageError,
};
use crate::mesh::bounds::Point;
use crate::mesh::triangles::{finds_normals, is_mesh_of, Mesh, MeshBuilder, Normal, Piece, Triangle};

verus! {

/// Components deeper than this are treated as a cycle.
pub const MAX_DEPTH: usize = 32;

/// An object and the transforms whose product places it, from the outermost inwards.
pub struct PlacedObject<'a> {
    pub object: &'a Object,
    pub transforms: Vec<&'a Transform>,
    /// How many of the triangles of the object are drawn, from the first on: all of them, unless
    /// one references a vertex that does not exist.
    pub triangles: usize,
}

/// The model of a `PlacedObject`.
pub struct PlacedView {
    pub object: ObjectView,
    pub transforms: Seq<TransformView>,
    pub triangles: int,
}

/// The models of several transforms.
pub open spec fn transforms_view(transforms: Seq<&Transform>) -> Seq<TransformView> {
    transforms.map_values(|t: &Transform| t@)
}

impl<'a> View for PlacedObject<'a> {
    type V = PlacedView;

    open spec fn view(&self) -> PlacedView {
        PlacedView {
            object: self.object@,
            transforms: transforms_view(self.transforms@),
            triangles: self.triangles as int,
        }
    }
}

/// The models of several placed objects.
pub open spec fn placed_view(placed: Seq<PlacedObject>) -> Seq<PlacedView> {
    placed.map_values(|p: PlacedObject| p@)
}

/// An object with all of its triangles, placed by transforms.
pub open spec fn whole(object: ObjectView, transforms: Seq<TransformView>) -> PlacedView {
    PlacedView { object, transforms, triangles: object.triangles.len() as int }
}

/// Why the objects of a package cannot be placed.
#[derive(Clone, Copy, PartialEq, Eq, Structural, Debug)]
pub enum SceneError {
    /// Components are nested too deeply or form a cycle.
    TooDeep,
    /// A triangle references a vertex that does not exist.
    MissingVertex,
}

// ---------------------------------------------------------------------------
// What is placed
// ---------------------------------------------------------------------------

impl ObjectView {
    /// Whether every triangle references vertices that exist.
    pub open spec fn has_its_vertices(self) -> bool {
        forall|i: int|
            0 <= i < self.triangles.len() ==> fits(#[trigger] self.triangles[i], self.vertices.len())
    }
}

/// Whether a triangle references some of the first vertices.
pub open spec fn fits(face: Face, count: nat) -> bool {
    face.a < count && face.b < count && face.c < count
}

/// How many triangles, from the first on, reference some of the first vertices.
pub open spec fn fitting(faces: Seq<Face>, count: nat) -> int
    decreases faces.len(),
{
    if faces.len() == 0 || !fits(faces[0], count) {
        0
    } else {
        1 + fitting(faces.skip(1), count)
    }
}

/// The object with an id in the file with a path.
pub open spec fn object_at(files: Seq<FileView>, path: Seq<char>, id: u64) -> Option<ObjectView> {
    match file_at(files, path) {
        Some(i) => if files[i].model.objects.contains_key(id) {
            Some(files[i].model.objects[id])
        } else {
            None
        },
        None => None,
    }
}

/// The file that a placement looks its object up in.
pub open spec fn placement_path(p: PlacementView, path: Seq<char>) -> Seq<char> {
    match p.path {
        Some(path) => path,
        None => path,
    }
}

/// An object and all of its components, placed by transforms. An object that does not exist is
/// left out.
pub open spec fn placed_object(
    files: Seq<FileView>,
    path: Seq<char>,
    id: u64,
    transforms: Seq<TransformView>,
    depth: int,
) -> Result<Seq<PlacedView>, SceneError>
    decreases MAX_DEPTH + 1 - depth, 1int, 0int,
{
    if depth > MAX_DEPTH {
        Err(SceneError::TooDeep)
    } else {
        match object_at(files, path, id) {
            None => Ok(Seq::empty()),
            Some(object) => if !object.has_its_vertices() {
                Err(SceneError::MissingVertex)
            } else {
                match placed_components(files, path, object.components, transforms, depth) {
                    Err(error) => Err(error),
                    Ok(below) => Ok(seq![whole(object, transforms)] + below),
                }
            },
        }
    }
}

/// The objects of several components, placed by transforms.
pub open spec fn placed_components(
    files: Seq<FileView>,
    path: Seq<char>,
    components: Seq<PlacementView>,
    transforms: Seq<TransformView>,
    depth: int,
) -> Result<Seq<PlacedView>, SceneError>
    decreases MAX_DEPTH + 1 - depth, 0int, components.len() as int,
{
    if components.len() == 0 || depth > MAX_DEPTH {
        Ok(Seq::empty())
    } else {
        let c = components.last();
        match placed_components(files, path, components.drop_last(), transforms, depth) {
            Err(error) => Err(error),
            Ok(before) => match placed_object(
                files,
                placement_path(c, path),
                c.objectid,
                transforms.push(c.transform),
                depth + 1,
            ) {
                Err(error) => Err(error),
                Ok(more) => Ok(before + more),
            },
        }
    }
}

/// What an object and all of its components have added when adding them ends, also where it ends
/// in an error. Of an object with a triangle that references a vertex that does not exist, the
/// triangles before that one are added, and nothing of its components.
pub open spec fn object_drawn(
    files: Seq<FileView>,
    path: Seq<char>,
    id: u64,
    transforms: Seq<TransformView>,
    depth: int,
) -> Seq<PlacedView>
    decreases MAX_DEPTH + 1 - depth, 1int, 0int,
{
    if depth > MAX_DEPTH {
        Seq::empty()
    } else {
        match object_at(files, path, id) {
            None => Seq::empty(),
            Some(object) => if !object.has_its_vertices() {
                seq![
                    PlacedView {
                        object,
                        transforms,
                        triangles: fitting(object.triangles, object.vertices.len()),
                    },
                ]
            } else {
                seq![whole(object, transforms)] + components_drawn(
                    files,
                    path,
                    object.components,
                    transforms,
                    depth,
                )
            },
        }
    }
}

/// What several components have added when adding them ends, also where it ends in an error.
/// Nothing is added behind the first of them that ends in one.
pub open spec fn components_drawn(
    files: Seq<FileView>,
    path: Seq<char>,
    components: Seq<PlacementView>,
    transforms: Seq<TransformView>,
    depth: int,
) -> Seq<PlacedView>
    decreases MAX_DEPTH + 1 - depth, 0int, components.len() as int,
{
    if components.len() == 0 || depth > MAX_DEPTH {
        Seq::empty()
    } else {
        let c = components.last();
        let first = components.drop_last();
        let before = components_drawn(files, path, first, transforms, depth);
        if placed_components(files, path, first, transforms, depth) is Err {
            before
        } else {
            before + object_drawn(
                files,
                placement_path(c, path),
                c.objectid,
                transforms.push(c.transform),
                depth + 1,
            )
        }
    }
}

/// The objects of several build items.
pub open spec fn placed_items(
    files: Seq<FileView>,
    path: Seq<char>,
    items: Seq<PlacementView>,
) -> Result<Seq<PlacedView>, SceneError>
    decreases items.len(),
{
    if items.len() == 0 {
        Ok(Seq::empty())
    } else {
        let item = items.last();
        match placed_items(files, path, items.drop_last()) {
            Err(error) => Err(error),
            Ok(before) => match placed_object(
                files,
                placement_path(item, path),
                item.objectid,
                seq![item.transform],
                0,
            ) {
                Err(error) => Err(error),
                Ok(more) => Ok(before + more),
            },
        }
    }
}

/// Several objects of a file where they are.
pub open spec fn objects_in_place(
    files: Seq<FileView>,
    path: Seq<char>,
    ids: Seq<u64>,
) -> Result<Seq<PlacedView>, SceneError>
    decreases ids.len(),
{
    if ids.len() == 0 {
        Ok(Seq::empty())
    } else {
        match objects_in_place(files, path, ids.drop_last()) {
            Err(error) => Err(error),
            Ok(before) => match placed_object(files, path, ids.last(), Seq::empty(), 0) {
                Err(error) => Err(error),
                Ok(more) => Ok(before + more),
            },
        }
    }
}

/// The objects of a package: those that the build items of the root model place. A root model
/// without build items is not valid 3MF, but every object of it is shown rather than nothing.
pub open spec fn scene(files: Seq<FileView>, root: int) -> Result<Seq<PlacedView>, SceneError> {
    let model = files[root].model;
    if model.build.len() == 0 {
        objects_in_place(files, files[root].path, model.ids)
    } else {
        placed_items(files, files[root].path, model.build)
    }
}

// ---------------------------------------------------------------------------
// Placing objects
// ---------------------------------------------------------------------------

/// The transforms of a list and one more.
fn extended<'a>(transforms: &Vec<&'a Transform>, last: Option<&'a Transform>) -> (r: Vec<
    &'a Transform,
>)
    ensures
        transforms_view(r@) == match last {
            Some(last) => transforms_view(transforms@).push(last@),
            None => transforms_view(transforms@),
        },
{
    let mut r: Vec<&'a Transform> = Vec::new();
    for i in 0..transforms.len()
        invariant
            r@ == transforms@.take(i as int),
    {
        r.push(transforms[i]);
        assert(transforms@.take(i + 1) =~= transforms@.take(i as int).push(transforms@[i as int]));
    }
    assert(transforms@.take(transforms@.len() as int) =~= transforms@);
    if let Some(last) = last {
        r.push(last);
        assert(transforms_view(r@) =~= transforms_view(transforms@).push(last@));
    }
    r
}

pub(super) proof fn lemma_fitting(faces: Seq<Face>, count: nat)
    ensures
        0 <= fitting(faces, count) <= faces.len(),
        forall|j: int| 0 <= j < fitting(faces, count) ==> fits(#[trigger] faces[j], count),
        fitting(faces, count) < faces.len() ==> !fits(faces[fitting(faces, count)], count),
    decreases faces.len(),
{
    if faces.len() > 0 && fits(faces[0], count) {
        let rest = faces.skip(1);
        lemma_fitting(rest, count);
        assert forall|j: int| 0 <= j < fitting(faces, count) implies fits(
            #[trigger] faces[j],
            count,
        ) by {
            if j > 0 {
                assert(rest[j - 1] == faces[j]);
            }
        }
    }
}

/// How many triangles of an object, from the first on, reference vertices that exist.
fn count_fitting(object: &Object) -> (r: usize)
    ensures
        r == fitting(object@.triangles, object@.vertices.len()),
        r <= object@.triangles.len(),
        object@.has_its_vertices() <==> r == object@.triangles.len(),
{
    let count = object.vertices.len();
    let ghost faces = object@.triangles;
    proof {
        lemma_fitting(faces, count as nat);
    }
    for i in 0..object.triangles.len()
        invariant
            count == object@.vertices.len(),
            faces == object@.triangles,
            forall|j: int| 0 <= j < i ==> fits(#[trigger] faces[j], count as nat),
            0 <= fitting(faces, count as nat) <= faces.len(),
            forall|j: int|
                0 <= j < fitting(faces, count as nat) ==> fits(#[trigger] faces[j], count as nat),
            fitting(faces, count as nat) < faces.len() ==> !fits(
                faces[fitting(faces, count as nat)],
                count as nat,
            ),
    {
        let face = object.triangles[i];
        assert(face == faces[i as int]);
        if face.a >= count || face.b >= count || face.c >= count {
            assert(!fits(faces[i as int], count as nat));
            return i;
        }
    }
    object.triangles.len()
}

pub(super) proof fn lemma_object_drawn(
    files: Seq<FileView>,
    path: Seq<char>,
    id: u64,
    transforms: Seq<TransformView>,
    depth: int,
)
    ensures
        placed_object(files, path, id, transforms, depth) matches Ok(placed) ==> object_drawn(
            files,
            path,
            id,
            transforms,
            depth,
        ) == placed,
    decreases MAX_DEPTH + 1 - depth, 1int, 0int,
{
    if depth <= MAX_DEPTH {
        if let Some(object) = object_at(files, path, id) {
            lemma_components_drawn(files, path, object.components, transforms, depth);
        }
    }
}

pub(super) proof fn lemma_components_drawn(
    files: Seq<FileView>,
    path: Seq<char>,
    components: Seq<PlacementView>,
    transforms: Seq<TransformView>,
    depth: int,
)
    ensures
        placed_components(files, path, components, transforms, depth) matches Ok(placed)
            ==> components_drawn(files, path, components, transforms, depth) == placed,
    decreases MAX_DEPTH + 1 - depth, 0int, components.len() as int,
{
    if components.len() > 0 && depth <= MAX_DEPTH {
        let c = components.last();
        lemma_components_drawn(files, path, components.drop_last(), transforms, depth);
        lemma_object_drawn(
            files,
            placement_path(c, path),
            c.objectid,
            transforms.push(c.transform),
            depth + 1,
        );
    }
}

/// Adds an object and all of its components, placed by transforms.
pub fn add_object<'a>(
    files: &'a Vec<File>,
    path: &'a str,
    id: u64,
    transforms: &Vec<&'a Transform>,
    depth: usize,
    placed: &mut Vec<PlacedObject<'a>>,
) -> (r: Result<(), SceneError>)
    ensures
        ({
            let added = placed_object(
                files_view(files@),
                path@,
                id,
                transforms_view(transforms@),
                depth as int,
            );
            match r {
                Ok(_) => added is Ok && placed_view(final(placed)@) == placed_view(old(placed)@)
                    + added->Ok_0,
                Err(error) => added == Err::<Seq<PlacedView>, _>(error),
            }
        }),
        placed_view(final(placed)@) == placed_view(old(placed)@) + object_drawn(
            files_view(files@),
            path@,
            id,
            transforms_view(transforms@),
            depth as int,
        ),
    decreases MAX_DEPTH + 1 - depth, 1int,
{
    let ghost fs = files_view(files@);
    let ghost base = placed_view(placed@);
    assert(base + Seq::<PlacedView>::empty() =~= base);
    proof {
        lemma_object_drawn(fs, path@, id, transforms_view(transforms@), depth as int);
    }
    if depth > MAX_DEPTH {
        return Err(SceneError::TooDeep);
    }
    let object = match find_file(files, path) {
        Some(i) => {
            assert(fs[i as int] == files@[i as int]@);
            match files[i].model.objects.get(&id) {
                Some(object) => object,
                None => return Ok(()),
            }
        },
        None => return Ok(()),
    };
    assert(object_at(fs, path@, id) == Some(object@));
    let triangles = count_fitting(object);
    let one = PlacedObject { object, transforms: extended(transforms, None), triangles };
    let ghost first = one@;
    placed.push(one);
    assert(placed_view(placed@) =~= base + seq![first]);
    if triangles < object.triangles.len() {
        return Err(SceneError::MissingVertex);
    }
    proof {
        let ts = transforms_view(transforms@);
        let below = components_drawn(fs, path@, object@.components, ts, depth as int);
        assert(first == whole(object@, ts));
        assert(base + seq![first] + below =~= base + (seq![first] + below));
    }
    add_components(files, path, &object.components, transforms, depth, placed)
}

/// Adds the objects of components, placed by transforms.
fn add_components<'a>(
    files: &'a Vec<File>,
    path: &'a str,
    components: &'a Vec<Placement>,
    transforms: &Vec<&'a Transform>,
    depth: usize,
    placed: &mut Vec<PlacedObject<'a>>,
) -> (r: Result<(), SceneError>)
    requires
        depth <= MAX_DEPTH,
    ensures
        ({
            let added = placed_components(
                files_view(files@),
                path@,
                placements_view(components@),
                transforms_view(transforms@),
                depth as int,
            );
            match r {
                Ok(_) => added is Ok,
                Err(error) => added == Err::<Seq<PlacedView>, _>(error),
            }
        }),
        placed_view(final(placed)@) == placed_view(old(placed)@) + components_drawn(
            files_view(files@),
            path@,
            placements_view(components@),
            transforms_view(transforms@),
            depth as int,
        ),
    decreases MAX_DEPTH + 1 - depth, 0int,
{
    let ghost fs = files_view(files@);
    let ghost ts = transforms_view(transforms@);
    let ghost all = placements_view(components@);
    let ghost base = placed_view(placed@);
    assert(base + Seq::<PlacedView>::empty() =~= base);
    for i in 0..components.len()
        invariant
            depth <= MAX_DEPTH,
            fs == files_view(files@),
            ts == transforms_view(transforms@),
            all == placements_view(components@),
            base == placed_view(old(placed)@),
            placed_components(fs, path@, all.take(i as int), ts, depth as int) is Ok,
            placed_view(placed@) == base + components_drawn(
                fs,
                path@,
                all.take(i as int),
                ts,
                depth as int,
            ),
    {
        let component = &components[i];
        assert(all[i as int] == component@);
        assert(all.take(i + 1).drop_last() =~= all.take(i as int));
        assert(all.take(i + 1).last() == component@);
        proof {
            lemma_components_fault(fs, path@, all, ts, depth as int, i + 1);
        }
        let from = match &component.path {
            Some(path) => path.as_str(),
            None => path,
        };
        let inner = extended(transforms, Some(&component.transform));
        proof {
            let before = components_drawn(fs, path@, all.take(i as int), ts, depth as int);
            let more = object_drawn(
                fs,
                from@,
                component.objectid,
                transforms_view(inner@),
                depth + 1,
            );
            assert(base + before + more =~= base + (before + more));
        }
        if let Err(error) = add_object(
            files,
            from,
            component.objectid,
            &inner,
            depth + 1,
            placed,
        ) {
            return Err(error);
        }
    }
    assert(all.take(all.len() as int) =~= all);
    Ok(())
}

proof fn lemma_components_fault(
    files: Seq<FileView>,
    path: Seq<char>,
    components: Seq<PlacementView>,
    transforms: Seq<TransformView>,
    depth: int,
    n: int,
)
    requires
        0 <= n <= components.len(),
        depth <= MAX_DEPTH,
    ensures
        placed_components(files, path, components.take(n), transforms, depth) is Err
            ==> placed_components(files, path, components, transforms, depth)
            == placed_components(files, path, components.take(n), transforms, depth)
            && components_drawn(files, path, components, transforms, depth) == components_drawn(
            files,
            path,
            components.take(n),
            transforms,
            depth,
        ),
    decreases components.len() - n,
{
    if n < components.len() {
        assert(components.take(n + 1).drop_last() =~= components.take(n));
        lemma_components_fault(files, path, components, transforms, depth, n + 1);
    } else {
        assert(components.take(n) =~= components);
    }
}

proof fn lemma_items_fault(
    files: Seq<FileView>,
    path: Seq<char>,
    items: Seq<PlacementView>,
    n: int,
)
    requires
        0 <= n <= items.len(),
    ensures
        placed_items(files, path, items.take(n)) is Err ==> placed_items(files, path, items)
            == placed_items(files, path, items.take(n)),
    decreases items.len() - n,
{
    if n < items.len() {
        assert(items.take(n + 1).drop_last() =~= items.take(n));
        lemma_items_fault(files, path, items, n + 1);
    } else {
        assert(items.take(n) =~= items);
    }
}

proof fn lemma_objects_fault(files: Seq<FileView>, path: Seq<char>, ids: Seq<u64>, n: int)
    requires
        0 <= n <= ids.len(),
    ensures
        objects_in_place(files, path, ids.take(n)) is Err ==> objects_in_place(files, path, ids)
            == objects_in_place(files, path, ids.take(n)),
    decreases ids.len() - n,
{
    if n < ids.len() {
        assert(ids.take(n + 1).drop_last() =~= ids.take(n));
        lemma_objects_fault(files, path, ids, n + 1);
    } else {
        assert(ids.take(n) =~= ids);
    }
}

/// The objects of a package, placed.
pub fn placed_objects<'a>(package: &'a Package) -> (r: Result<Vec<PlacedObject<'a>>, SceneError>)
    requires
        package.root < package.files@.len(),
    ensures
        match r {
            Ok(placed) => scene(files_view(package.files@), package.root as int) == Ok::<
                _,
                SceneError,
            >(placed_view(placed@)),
            Err(error) => scene(files_view(package.files@), package.root as int) == Err::<
                Seq<PlacedView>,
                _,
            >(error),
        },
{
    let files = &package.files;
    let ghost fs = files_view(files@);
    let root = &files[package.root];
    assert(fs[package.root as int] == root@);
    let path = root.path.as_str();
    let mut placed: Vec<PlacedObject<'a>> = Vec::new();
    assert(placed_view(placed@) =~= Seq::empty());
    if root.model.build.len() == 0 {
        let none: Vec<&'a Transform> = Vec::new();
        assert(transforms_view(none@) =~= Seq::empty());
        let ids = &root.model.ids;
        for i in 0..ids.len()
            invariant
                fs == files_view(files@),
                transforms_view(none@) == Seq::<TransformView>::empty(),
                ids@ == fs[package.root as int].model.ids,
                path@ == fs[package.root as int].path,
                fs[package.root as int].model.build.len() == 0,
                fs == files_view(package.files@),
                objects_in_place(fs, path@, ids@.take(i as int)) == Ok::<_, SceneError>(
                    placed_view(placed@),
                ),
        {
            assert(ids@.take(i + 1).drop_last() =~= ids@.take(i as int));
            proof {
                lemma_objects_fault(fs, path@, ids@, i + 1);
            }
            if let Err(error) = add_object(files, path, ids[i], &none, 0, &mut placed) {
                return Err(error);
            }
        }
        assert(ids@.take(ids@.len() as int) =~= ids@);
    } else {
        let build = &root.model.build;
        let ghost all = placements_view(build@);
        for i in 0..build.len()
            invariant
                fs == files_view(files@),
                all == placements_view(build@),
                all == fs[package.root as int].model.build,
                all.len() > 0,
                path@ == fs[package.root as int].path,
                fs == files_view(package.files@),
                placed_items(fs, path@, all.take(i as int)) == Ok::<_, SceneError>(
                    placed_view(placed@),
                ),
        {
            let item = &build[i];
            assert(all[i as int] == item@);
            assert(all.take(i + 1).drop_last() =~= all.take(i as int));
            assert(all.take(i + 1).last() == item@);
            proof {
                lemma_items_fault(fs, path@, all, i + 1);
            }
            let from = match &item.path {
                Some(path) => path.as_str(),
                None => path,
            };
            let mut transforms: Vec<&'a Transform> = Vec::new();
            transforms.push(&item.transform);
            assert(transforms_view(transforms@) =~= seq![item.transform@]);
            if let Err(error) = add_object(
                files,
                from,
                item.objectid,
                &transforms,
                0,
                &mut placed,
            ) {
                return Err(error);
            }
        }
        assert(all.take(all.len() as int) =~= all);
    }
    Ok(placed)
}

// ---------------------------------------------------------------------------
// The mesh
// ---------------------------------------------------------------------------

/// The vertices of a placed object, and whether its transforms mirror it.
pub struct Positions {
    pub vertices: Vec<Point>,
    pub mirrored: bool,
}

/// A triangle of an object whose vertices are placed. A mirroring transform turns
/// counter-clockwise triangles clockwise, so they are turned back.
pub open spec fn face_piece(vertices: Seq<Point>, mirrored: bool, face: Face) -> Piece {
    Piece {
        triangle: (Triangle {
            a: vertices[face.a as int],
            b: vertices[face.b as int],
            c: vertices[face.c as int],
        }).spec_turned(mirrored),
        normals: None,
    }
}

/// The triangles of an object whose vertices are placed.
pub open spec fn object_pieces(vertices: Seq<Point>, mirrored: bool, faces: Seq<Face>) -> Seq<
    Piece,
> {
    faces.map_values(|face: Face| face_piece(vertices, mirrored, face))
}

impl PlacedView {
    /// Whether the triangles that are drawn reference vertices that exist.
    pub open spec fn is_drawable(self) -> bool {
        &&& 0 <= self.triangles <= self.object.triangles.len()
        &&& forall|i: int|
            0 <= i < self.triangles ==> fits(
                #[trigger] self.object.triangles[i],
                self.object.vertices.len(),
            )
    }
}

/// The triangles of the first of several placed objects.
pub open spec fn scene_pieces(placed: Seq<PlacedView>, positions: Seq<Positions>, n: int) -> Seq<
    Piece,
>
    decreases n,
{
    if n <= 0 {
        Seq::empty()
    } else {
        scene_pieces(placed, positions, n - 1) + object_pieces(
            positions[n - 1].vertices@,
            positions[n - 1].mirrored,
            placed[n - 1].object.triangles.take(placed[n - 1].triangles),
        )
    }
}

/// Adds the triangles of an object whose vertices are placed.
fn add_faces<F: Fn(Triangle) -> Normal>(
    builder: &mut MeshBuilder<F>,
    positions: &Positions,
    faces: &Vec<Face>,
    count: usize,
)
    requires
        old(builder).wf(),
        count <= faces@.len(),
        forall|i: int|
            0 <= i < count ==> fits(#[trigger] faces@[i], positions.vertices@.len()),
    ensures
        final(builder).wf(),
        final(builder).spec_normal() == old(builder).spec_normal(),
        final(builder)@ == old(builder)@ + object_pieces(
            positions.vertices@,
            positions.mirrored,
            faces@.take(count as int),
        ),
{
    let ghost base = builder@;
    let ghost all = object_pieces(
        positions.vertices@,
        positions.mirrored,
        faces@.take(count as int),
    );
    assert(base + all.take(0) =~= base);
    for i in 0..count
        invariant
            builder.wf(),
            builder.spec_normal() == old(builder).spec_normal(),
            base == old(builder)@,
            count <= faces@.len(),
            all == object_pieces(
                positions.vertices@,
                positions.mirrored,
                faces@.take(count as int),
            ),
            builder@ == base + all.take(i as int),
            forall|i: int|
                0 <= i < count ==> fits(#[trigger] faces@[i], positions.vertices@.len()),
    {
        let face = faces[i];
        assert(fits(faces@[i as int], positions.vertices@.len()));
        let triangle = Triangle {
            a: positions.vertices[face.a],
            b: positions.vertices[face.b],
            c: positions.vertices[face.c],
        };
        builder.add_triangle(triangle.turned(positions.mirrored), None);
        assert(all[i as int] == face_piece(positions.vertices@, positions.mirrored, face));
        assert((base + all.take(i as int)).push(all[i as int]) =~= base + all.take(i + 1));
    }
    assert(all.take(all.len() as int) =~= all);
}

/// The mesh of placed objects. There is none without triangles.
pub fn scene_mesh<F: Fn(Triangle) -> Normal>(
    placed: &Vec<PlacedObject>,
    positions: &Vec<Positions>,
    normal: &F,
) -> (r: Option<Mesh>)
    requires
        finds_normals(*normal),
        positions@.len() == placed@.len(),
        forall|i: int|
            0 <= i < placed@.len() ==> (#[trigger] placed@[i])@.is_drawable()
                && positions@[i].vertices@.len() == placed@[i].object@.vertices.len(),
    ensures
        ({
            let pieces = scene_pieces(placed_view(placed@), positions@, placed@.len() as int);
            match r {
                Some(mesh) => is_mesh_of(*normal, pieces, mesh@),
                None => pieces.len() == 0,
            }
        }),
{
    let ghost all = placed_view(placed@);
    let mut builder = MeshBuilder::new(normal);
    for i in 0..placed.len()
        invariant
            builder.wf(),
            builder.spec_normal() == *normal,
            all == placed_view(placed@),
            positions@.len() == placed@.len(),
            forall|i: int|
                0 <= i < placed@.len() ==> (#[trigger] placed@[i])@.is_drawable()
                    && positions@[i].vertices@.len() == placed@[i].object@.vertices.len(),
            builder@ == scene_pieces(all, positions@, i as int),
    {
        assert(all[i as int] == placed@[i as int]@);
        let object = placed[i].object;
        let count = placed[i].triangles;
        assert forall|j: int| 0 <= j < count implies fits(
            #[trigger] object.triangles@[j],
            positions@[i as int].vertices@.len(),
        ) by {
            assert(fits(object@.triangles[j], object@.vertices.len()));
        }
        add_faces(&mut builder, &positions[i], &object.triangles, count);
    }
    builder.finish()
}

/// A function that can place the vertices of any object.
pub open spec fn places_objects<P: Fn(&Object, &Vec<&Transform>) -> Positions>(place: P) -> bool {
    &&& forall|object: &Object, transforms: &Vec<&Transform>| #[trigger]
        call_requires(place, (object, transforms))
    &&& forall|object: &Object, transforms: &Vec<&Transform>, positions: Positions| #[trigger]
        call_ensures(place, (object, transforms), positions) ==> positions.vertices@.len()
            == object@.vertices.len()
}

/// Why a 3MF file gives no mesh.
pub enum ThreeMfError {
    /// The package cannot be read.
    Package(PackageError),
    /// The objects cannot be placed.
    Scene(SceneError),
    /// The file contains no triangles.
    NoTriangles,
}

/// Whether positions are what a function gives for placed objects.
pub open spec fn placed_by<P: Fn(&Object, &Vec<&Transform>) -> Positions>(
    place: P,
    placed: Seq<PlacedObject>,
    positions: Seq<Positions>,
) -> bool {
    positions.len() == placed.len() && forall|i: int|
        0 <= i < placed.len() ==> call_ensures(
            place,
            (placed[i].object, &placed[i].transforms),
            #[trigger] positions[i],
        )
}

/// Whether a mesh is that of a scene, for positions that a function gives.
pub open spec fn is_scene_mesh<
    P: Fn(&Object, &Vec<&Transform>) -> Positions,
    F: Fn(Triangle) -> Normal,
>(place: P, normal: F, all: Seq<PlacedView>, mesh: Option<Mesh>) -> bool {
    exists|placed: Seq<PlacedObject>, positions: Seq<Positions>|
        placed_view(placed) == all && #[trigger] placed_by(place, placed, positions) && match mesh {
            Some(mesh) => is_mesh_of(
                normal,
                scene_pieces(all, positions, all.len() as int),
                mesh@,
            ),
            None => scene_pieces(all, positions, all.len() as int).len() == 0,
        }
}

proof fn lemma_placed_object_valid(
    files: Seq<FileView>,
    path: Seq<char>,
    id: u64,
    transforms: Seq<TransformView>,
    depth: int,
)
    ensures
        placed_object(files, path, id, transforms, depth) matches Ok(placed) ==> all_valid(placed),
    decreases MAX_DEPTH + 1 - depth, 1int, 0int,
{
    if depth <= MAX_DEPTH {
        if let Some(object) = object_at(files, path, id) {
            lemma_placed_components_valid(files, path, object.components, transforms, depth);
        }
    }
}

proof fn lemma_placed_components_valid(
    files: Seq<FileView>,
    path: Seq<char>,
    components: Seq<PlacementView>,
    transforms: Seq<TransformView>,
    depth: int,
)
    ensures
        placed_components(files, path, components, transforms, depth) matches Ok(placed)
            ==> all_valid(placed),
    decreases MAX_DEPTH + 1 - depth, 0int, components.len() as int,
{
    if components.len() > 0 && depth <= MAX_DEPTH {
        let c = components.last();
        lemma_placed_components_valid(files, path, components.drop_last(), transforms, depth);
        lemma_placed_object_valid(
            files,
            placement_path(c, path),
            c.objectid,
            transforms.push(c.transform),
            depth + 1,
        );
    }
}

proof fn lemma_items_valid(files: Seq<FileView>, path: Seq<char>, items: Seq<PlacementView>)
    ensures
        placed_items(files, path, items) matches Ok(placed) ==> all_valid(placed),
    decreases items.len(),
{
    if items.len() > 0 {
        let item = items.last();
        lemma_items_valid(files, path, items.drop_last());
        lemma_placed_object_valid(
            files,
            placement_path(item, path),
            item.objectid,
            seq![item.transform],
            0,
        );
    }
}

proof fn lemma_objects_valid(files: Seq<FileView>, path: Seq<char>, ids: Seq<u64>)
    ensures
        objects_in_place(files, path, ids) matches Ok(placed) ==> all_valid(placed),
    decreases ids.len(),
{
    if ids.len() > 0 {
        lemma_objects_valid(files, path, ids.drop_last());
        lemma_placed_object_valid(files, path, ids.last(), Seq::empty(), 0);
    }
}

/// Whether several placed objects are drawn with all of their triangles, which reference vertices
/// that exist.
pub open spec fn all_valid(placed: Seq<PlacedView>) -> bool {
    forall|i: int|
        0 <= i < placed.len() ==> (#[trigger] placed[i]).object.has_its_vertices()
            && placed[i].triangles == placed[i].object.triangles.len()
}

/// Whether a result is the right one for a 3MF file.
pub open spec fn is_3mf_load<
    P: Fn(&Object, &Vec<&Transform>) -> Positions,
    F: Fn(Triangle) -> Normal,
>(place: P, normal: F, bytes: Seq<u8>, r: Result<Mesh, ThreeMfError>) -> bool {
    match package_value(bytes) {
        Err(fault) => r matches Err(ThreeMfError::Package(error)) && error@ == fault,
        Ok((files, root)) => match scene(files, root) {
            Err(error) => r matches Err(ThreeMfError::Scene(e)) && e == error,
            Ok(all) => match r {
                Ok(mesh) => is_scene_mesh(place, normal, all, Some(mesh)),
                Err(ThreeMfError::NoTriangles) => is_scene_mesh(place, normal, all, None),
                Err(_) => false,
            },
        },
    }
}

impl Mesh {
    /// The mesh of a 3MF file. `place` calculates the vertices of a placed object, `normal` the
    /// normal of a triangle.
    pub fn from_3mf<P: Fn(&Object, &Vec<&Transform>) -> Positions, F: Fn(Triangle) -> Normal>(
        bytes: &[u8],
        _recalc_normals: bool,
        place: &P,
        normal: &F,
    ) -> (r: Result<Mesh, ThreeMfError>)
        requires
            places_objects(*place),
            finds_normals(*normal),
        ensures
            is_3mf_load(*place, *normal, bytes@, r),
    {
        let package = match read_package(bytes) {
            Ok(package) => package,
            Err(error) => return Err(ThreeMfError::Package(error)),
        };
        let placed = match placed_objects(&package) {
            Ok(placed) => placed,
            Err(error) => return Err(ThreeMfError::Scene(error)),
        };
        let ghost all = placed_view(placed@);
        proof {
            law_scene_valid(files_view(package.files@), package.root as int);
        }
        let mut positions: Vec<Positions> = Vec::new();
        for i in 0..placed.len()
            invariant
                places_objects(*place),
                positions@.len() == i,
                forall|j: int|
                    0 <= j < i ==> call_ensures(
                        *place,
                        (placed@[j].object, &placed@[j].transforms),
                        #[trigger] positions@[j],
                    ),
        {
            positions.push(place(placed[i].object, &placed[i].transforms));
        }
        proof {
            assert forall|i: int| 0 <= i < placed@.len() implies (
            #[trigger] placed@[i])@.is_drawable() && positions@[i].vertices@.len()
                == placed@[i].object@.vertices.len() by {
                assert(all[i] == placed@[i]@);
                assert(all[i].object.has_its_vertices());
                assert(call_ensures(
                    *place,
                    (placed@[i].object, &placed@[i].transforms),
                    positions@[i],
                ));
            }
            assert(placed_by(*place, placed@, positions@));
        }
        match scene_mesh(&placed, &positions, normal) {
            Some(mesh) => Ok(mesh),
            None => Err(ThreeMfError::NoTriangles),
        }
    }
}

// ---------------------------------------------------------------------------
// Laws
// ---------------------------------------------------------------------------

/// Whatever is placed has triangles that reference vertices that exist.
pub proof fn law_scene_valid(files: Seq<FileView>, root: int)
    ensures
        scene(files, root) matches Ok(placed) ==> all_valid(placed),
{
    lemma_objects_valid(files, files[root].path, files[root].model.ids);
    lemma_items_valid(files, files[root].path, files[root].model.build);
}

/// Whether every one of some objects, given by path and id, exists and has a component that is
/// again one of them.
pub open spec fn is_cycle(files: Seq<FileView>, cycle: Set<(Seq<char>, u64)>) -> bool {
    forall|path: Seq<char>, id: u64| #[trigger]
        cycle.contains((path, id)) ==> object_at(files, path, id) is Some && exists|i: int|
            #![trigger object_at(files, path, id)->0.components[i]]
            0 <= i < object_at(files, path, id)->0.components.len() && cycle.contains(
                leads_to(object_at(files, path, id)->0.components[i], path),
            )
}

/// The object that a component leads to, as path and id.
pub open spec fn leads_to(component: PlacementView, path: Seq<char>) -> (Seq<char>, u64) {
    (placement_path(component, path), component.objectid)
}

/// An object that contains itself, directly or by way of others, is refused.
pub proof fn law_cycle_refused(
    files: Seq<FileView>,
    cycle: Set<(Seq<char>, u64)>,
    path: Seq<char>,
    id: u64,
    transforms: Seq<TransformView>,
    depth: int,
)
    requires
        is_cycle(files, cycle),
        cycle.contains((path, id)),
    ensures
        placed_object(files, path, id, transforms, depth) is Err,
    decreases MAX_DEPTH + 1 - depth,
{
    if depth <= MAX_DEPTH {
        let components = object_at(files, path, id)->0.components;
        let i = choose|i: int|
            #![trigger components[i]]
            0 <= i < components.len() && cycle.contains(leads_to(components[i], path));
        let c = components[i];
        law_cycle_refused(
            files,
            cycle,
            placement_path(c, path),
            c.objectid,
            transforms.push(c.transform),
            depth + 1,
        );
        assert(components.take(i + 1).drop_last() =~= components.take(i));
        lemma_components_fault(files, path, components, transforms, depth, i + 1);
    }
}

/// However components are nested, no object is placed by more transforms than the depth limit
/// lets through beyond the one that places the outermost object.
pub proof fn law_depth_limited(
    files: Seq<FileView>,
    path: Seq<char>,
    id: u64,
    transforms: Seq<TransformView>,
    depth: int,
    i: int,
)
    requires
        depth <= MAX_DEPTH,
    ensures
        placed_object(files, path, id, transforms, depth) matches Ok(placed) ==> 0 <= i
            < placed.len() ==> placed[i].transforms.len() <= transforms.len() + MAX_DEPTH - depth,
    decreases MAX_DEPTH + 1 - depth, 1int, 0int,
{
    if let Some(object) = object_at(files, path, id) {
        lemma_components_depth(files, path, object.components, transforms, depth, i - 1);
    }
}

proof fn lemma_components_depth(
    files: Seq<FileView>,
    path: Seq<char>,
    components: Seq<PlacementView>,
    transforms: Seq<TransformView>,
    depth: int,
    i: int,
)
    requires
        depth <= MAX_DEPTH,
    ensures
        placed_components(files, path, components, transforms, depth) matches Ok(placed) ==> 0 <= i
            < placed.len() ==> placed[i].transforms.len() <= transforms.len() + MAX_DEPTH - depth,
    decreases MAX_DEPTH + 1 - depth, 0int, components.len() as int,
{
    if components.len() > 0 {
        let c = components.last();
        lemma_components_depth(files, path, components.drop_last(), transforms, depth, i);
        if let Ok(before) = placed_components(
            files,
            path,
            components.drop_last(),
            transforms,
            depth,
        ) {
            if depth < MAX_DEPTH {
                law_depth_limited(
                    files,
                    placement_path(c, path),
                    c.objectid,
                    transforms.push(c.transform),
                    depth + 1,
                    i - before.len(),
                );
            }
        }
    }
}

/// An object that exists comes first in what it places, with the transforms that place it.
proof fn lemma_first_placed(
    files: Seq<FileView>,
    path: Seq<char>,
    id: u64,
    transforms: Seq<TransformView>,
    depth: int,
)
    requires
        object_at(files, path, id) is Some,
        placed_object(files, path, id, transforms, depth) is Ok,
    ensures
        ({
            let placed = placed_object(files, path, id, transforms, depth)->Ok_0;
            placed.len() > 0 && placed[0] == whole(
                object_at(files, path, id)->0,
                transforms,
            )
        }),
{
}

/// A component that exists is placed inside its object.
pub proof fn law_component_placed(
    files: Seq<FileView>,
    path: Seq<char>,
    id: u64,
    transforms: Seq<TransformView>,
    depth: int,
    i: int,
)
    requires
        placed_object(files, path, id, transforms, depth) is Ok,
        object_at(files, path, id) is Some,
        0 <= i < object_at(files, path, id)->0.components.len(),
        ({
            let c = object_at(files, path, id)->0.components[i];
            object_at(files, placement_path(c, path), c.objectid) is Some
        }),
    ensures
        ({
            let c = object_at(files, path, id)->0.components[i];
            let inner = object_at(files, placement_path(c, path), c.objectid)->0;
            placed_object(files, path, id, transforms, depth)->Ok_0.contains(
                whole(inner, transforms.push(c.transform)),
            )
        }),
{
    let object = object_at(files, path, id)->0;
    let components = object.components;
    let c = components[i];
    let below = placed_components(files, path, components, transforms, depth)->Ok_0;
    assert(components.take(components.len() as int) =~= components);
    lemma_component_contained(
        files,
        path,
        components,
        transforms,
        depth,
        i,
        components.len() as int,
    );
    let wanted = whole(
        object_at(files, placement_path(c, path), c.objectid)->0,
        transforms.push(c.transform),
    );
    let k = choose|k: int| 0 <= k < below.len() && below[k] == wanted;
    assert(placed_object(files, path, id, transforms, depth)->Ok_0[k + 1] == wanted);
}

proof fn lemma_component_contained(
    files: Seq<FileView>,
    path: Seq<char>,
    components: Seq<PlacementView>,
    transforms: Seq<TransformView>,
    depth: int,
    i: int,
    n: int,
)
    requires
        depth <= MAX_DEPTH,
        0 <= i < n <= components.len(),
        placed_components(files, path, components.take(n), transforms, depth) is Ok,
        object_at(files, placement_path(components[i], path), components[i].objectid) is Some,
    ensures
        placed_components(files, path, components.take(n), transforms, depth)->Ok_0.contains(
            whole(
                object_at(
                    files,
                    placement_path(components[i], path),
                    components[i].objectid,
                )->0,
                transforms.push(components[i].transform),
            ),
        ),
    decreases n,
{
    let taken = components.take(n);
    let c = components[n - 1];
    assert(taken.drop_last() =~= components.take(n - 1));
    assert(taken.last() == c);
    let before = placed_components(files, path, components.take(n - 1), transforms, depth)->Ok_0;
    let all = placed_components(files, path, taken, transforms, depth)->Ok_0;
    let wanted = whole(
        object_at(files, placement_path(components[i], path), components[i].objectid)->0,
        transforms.push(components[i].transform),
    );
    if i < n - 1 {
        lemma_component_contained(files, path, components, transforms, depth, i, n - 1);
        let k = choose|k: int| 0 <= k < before.len() && before[k] == wanted;
        assert(all[k] == wanted);
    } else {
        lemma_first_placed(
            files,
            placement_path(c, path),
            c.objectid,
            transforms.push(c.transform),
            depth + 1,
        );
        assert(all[before.len() as int] == wanted);
    }
}

/// A build item of the root model whose object exists is placed by the item's transform.
pub proof fn law_item_placed(files: Seq<FileView>, root: int, i: int)
    requires
        scene(files, root) is Ok,
        0 <= i < files[root].model.build.len(),
        ({
            let item = files[root].model.build[i];
            object_at(files, placement_path(item, files[root].path), item.objectid) is Some
        }),
    ensures
        ({
            let item = files[root].model.build[i];
            scene(files, root)->Ok_0.contains(
                whole(
                    object_at(
                        files,
                        placement_path(item, files[root].path),
                        item.objectid,
                    )->0,
                    seq![item.transform],
                ),
            )
        }),
{
    let build = files[root].model.build;
    assert(build.take(build.len() as int) =~= build);
    lemma_item_contained(files, files[root].path, build, i, build.len() as int);
}

proof fn lemma_item_contained(
    files: Seq<FileView>,
    path: Seq<char>,
    items: Seq<PlacementView>,
    i: int,
    n: int,
)
    requires
        0 <= i < n <= items.len(),
        placed_items(files, path, items.take(n)) is Ok,
        object_at(files, placement_path(items[i], path), items[i].objectid) is Some,
    ensures
        placed_items(files, path, items.take(n))->Ok_0.contains(
            whole(
                object_at(files, placement_path(items[i], path), items[i].objectid)->0,
                seq![items[i].transform],
            ),
        ),
    decreases n,
{
    let taken = items.take(n);
    let item = items[n - 1];
    assert(taken.drop_last() =~= items.take(n - 1));
    assert(taken.last() == item);
    let before = placed_items(files, path, items.take(n - 1))->Ok_0;
    let all = placed_items(files, path, taken)->Ok_0;
    let wanted = whole(
        object_at(files, placement_path(items[i], path), items[i].objectid)->0,
        seq![items[i].transform],
    );
    if i < n - 1 {
        lemma_item_contained(files, path, items, i, n - 1);
        let k = choose|k: int| 0 <= k < before.len() && before[k] == wanted;
        assert(all[k] == wanted);
    } else {
        lemma_first_placed(
            files,
            placement_path(item, path),
            item.objectid,
            seq![item.transform],
            0,
        );
        assert(all[before.len() as int] == wanted);
    }
}

/// Without build items, every object of the root model is shown where it is.
pub proof fn law_every_object_shown(files: Seq<FileView>, root: int, i: int)
    requires
        scene(files, root) is Ok,
        files[root].model.build.len() == 0,
        0 <= i < files[root].model.ids.len(),
        object_at(files, files[root].path, files[root].model.ids[i]) is Some,
    ensures
        scene(files, root)->Ok_0.contains(
            whole(object_at(files, files[root].path, files[root].model.ids[i])->0, Seq::empty()),
        ),
{
    let ids = files[root].model.ids;
    assert(ids.take(ids.len() as int) =~= ids);
    lemma_object_contained(files, files[root].path, ids, i, ids.len() as int);
}

proof fn lemma_object_contained(
    files: Seq<FileView>,
    path: Seq<char>,
    ids: Seq<u64>,
    i: int,
    n: int,
)
    requires
        0 <= i < n <= ids.len(),
        objects_in_place(files, path, ids.take(n)) is Ok,
        object_at(files, path, ids[i]) is Some,
    ensures
        objects_in_place(files, path, ids.take(n))->Ok_0.contains(
            whole(object_at(files, path, ids[i])->0, Seq::empty()),
        ),
    decreases n,
{
    let taken = ids.take(n);
    assert(taken.drop_last() =~= ids.take(n - 1));
    assert(taken.last() == ids[n - 1]);
    let before = objects_in_place(files, path, ids.take(n - 1))->Ok_0;
    let all = objects_in_place(files, path, taken)->Ok_0;
    let wanted = whole(object_at(files, path, ids[i])->0, Seq::<TransformView>::empty());
    if i < n - 1 {
        lemma_object_contained(files, path, ids, i, n - 1);
        let k = choose|k: int| 0 <= k < before.len() && before[k] == wanted;
        assert(all[k] == wanted);
    } else {
        lemma_first_placed(files, path, ids[i], Seq::empty(), 0);
        assert(all[before.len() as int] == wanted);
    }
}

/// The triangles that an object and all of its components add to a mesh, for the vertices of the
/// objects that are placed, in order.
pub open spec fn added_pieces(
    files: Seq<FileView>,
    path: Seq<char>,
    id: u64,
    transforms: Seq<TransformView>,
    depth: int,
    positions: Seq<Positions>,
) -> Seq<Piece> {
    let placed = placed_object(files, path, id, transforms, depth)->Ok_0;
    scene_pieces(placed, positions, placed.len() as int)
}

/// The triangles that components add to a mesh one after the other, each of them with the
/// vertices of the objects that it places.
pub open spec fn component_pieces(
    files: Seq<FileView>,
    path: Seq<char>,
    components: Seq<PlacementView>,
    transforms: Seq<TransformView>,
    depth: int,
    positions: Seq<Positions>,
) -> Seq<Piece>
    decreases components.len(),
{
    if components.len() == 0 {
        Seq::empty()
    } else {
        let c = components.last();
        let first = components.drop_last();
        let count = placed_components(files, path, first, transforms, depth)->Ok_0.len() as int;
        component_pieces(files, path, first, transforms, depth, positions.take(count))
            + added_pieces(
            files,
            placement_path(c, path),
            c.objectid,
            transforms.push(c.transform),
            depth + 1,
            positions.skip(count),
        )
    }
}

/// An object that exists adds its own triangles in order, turned back if its transforms mirror
/// them and without normals of their own. Then each of its components adds what its object adds
/// in the file that the component names, or else in the same file, with the transform of the
/// component after the others.
pub proof fn law_object_added(
    files: Seq<FileView>,
    path: Seq<char>,
    id: u64,
    transforms: Seq<TransformView>,
    depth: int,
    positions: Seq<Positions>,
)
    requires
        object_at(files, path, id) is Some,
        placed_object(files, path, id, transforms, depth) is Ok,
        positions.len() == placed_object(files, path, id, transforms, depth)->Ok_0.len(),
    ensures
        ({
            let object = object_at(files, path, id)->0;
            let placed = placed_object(files, path, id, transforms, depth)->Ok_0;
            &&& placed[0] == whole(object, transforms)
            &&& added_pieces(files, path, id, transforms, depth, positions) == object_pieces(
                positions[0].vertices@,
                positions[0].mirrored,
                object.triangles,
            ) + component_pieces(
                files,
                path,
                object.components,
                transforms,
                depth,
                positions.skip(1),
            )
        }),
{
    let object = object_at(files, path, id)->0;
    let below = placed_components(files, path, object.components, transforms, depth)->Ok_0;
    let own = seq![whole(object, transforms)];
    lemma_pieces_joined(own, below, positions.take(1), positions.skip(1));
    assert(positions.take(1) + positions.skip(1) =~= positions);
    lemma_component_pieces(
        files,
        path,
        object.components,
        transforms,
        depth,
        positions.skip(1),
    );
    let alone = object_pieces(positions[0].vertices@, positions[0].mirrored, object.triangles);
    assert(positions.take(1)[0] == positions[0]);
    reveal_with_fuel(scene_pieces, 2);
    assert(object.triangles.take(object.triangles.len() as int) =~= object.triangles);
    assert(scene_pieces(own, positions.take(1), 1) =~= alone);
}

/// An object with a triangle that references a vertex that does not exist is refused. Its
/// triangles before the first such one have been added then, and nothing else.
pub proof fn law_faulty_object(
    files: Seq<FileView>,
    path: Seq<char>,
    id: u64,
    transforms: Seq<TransformView>,
    depth: int,
    k: int,
    positions: Seq<Positions>,
)
    requires
        depth <= MAX_DEPTH,
        object_at(files, path, id) is Some,
        ({
            let object = object_at(files, path, id)->0;
            &&& 0 <= k < object.triangles.len()
            &&& !fits(object.triangles[k], object.vertices.len())
            &&& forall|j: int|
                0 <= j < k ==> fits(#[trigger] object.triangles[j], object.vertices.len())
        }),
        positions.len() == 1,
    ensures
        ({
            let object = object_at(files, path, id)->0;
            let drawn = object_drawn(files, path, id, transforms, depth);
            &&& placed_object(files, path, id, transforms, depth) == Err::<Seq<PlacedView>, _>(
                SceneError::MissingVertex,
            )
            &&& drawn == seq![PlacedView { object, transforms, triangles: k }]
            &&& scene_pieces(drawn, positions, 1) == object_pieces(
                positions[0].vertices@,
                positions[0].mirrored,
                object.triangles.take(k),
            )
        }),
{
    let object = object_at(files, path, id)->0;
    lemma_fitting(object.triangles, object.vertices.len());
    let count = fitting(object.triangles, object.vertices.len());
    if count < k {
        assert(fits(object.triangles[count], object.vertices.len()));
    } else if count > k {
        assert(fits(object.triangles[k], object.vertices.len()));
    }
    assert(!object.has_its_vertices());
    reveal_with_fuel(scene_pieces, 2);
    let drawn = object_drawn(files, path, id, transforms, depth);
    assert(scene_pieces(drawn, positions, 1) =~= object_pieces(
        positions[0].vertices@,
        positions[0].mirrored,
        object.triangles.take(k),
    ));
}

/// An object that exists is placed if and only if it is not too deep, its triangles reference
/// vertices that exist, and what its components place can be placed.
pub proof fn law_object_accepted(
    files: Seq<FileView>,
    path: Seq<char>,
    id: u64,
    transforms: Seq<TransformView>,
    depth: int,
)
    requires
        object_at(files, path, id) is Some,
    ensures
        ({
            let object = object_at(files, path, id)->0;
            placed_object(files, path, id, transforms, depth) is Ok <==> depth <= MAX_DEPTH
                && object.has_its_vertices() && forall|i: int|
                0 <= i < object.components.len() ==> component_placed(
                    files,
                    path,
                    #[trigger] object.components[i],
                    transforms,
                    depth,
                ) is Ok
        }),
{
    if depth <= MAX_DEPTH {
        let object = object_at(files, path, id)->0;
        lemma_components_accepted(files, path, object.components, transforms, depth);
    }
}

/// What a component of an object places.
pub open spec fn component_placed(
    files: Seq<FileView>,
    path: Seq<char>,
    c: PlacementView,
    transforms: Seq<TransformView>,
    depth: int,
) -> Result<Seq<PlacedView>, SceneError> {
    placed_object(
        files,
        placement_path(c, path),
        c.objectid,
        transforms.push(c.transform),
        depth + 1,
    )
}

proof fn lemma_components_accepted(
    files: Seq<FileView>,
    path: Seq<char>,
    components: Seq<PlacementView>,
    transforms: Seq<TransformView>,
    depth: int,
)
    requires
        depth <= MAX_DEPTH,
    ensures
        placed_components(files, path, components, transforms, depth) is Ok <==> forall|i: int|
            0 <= i < components.len() ==> component_placed(
                files,
                path,
                #[trigger] components[i],
                transforms,
                depth,
            ) is Ok,
    decreases components.len(),
{
    if components.len() > 0 {
        let first = components.drop_last();
        lemma_components_accepted(files, path, first, transforms, depth);
        if placed_components(files, path, components, transforms, depth) is Ok {
            assert forall|i: int| 0 <= i < components.len() implies component_placed(
                files,
                path,
                #[trigger] components[i],
                transforms,
                depth,
            ) is Ok by {
                if i < first.len() {
                    assert(first[i] == components[i]);
                }
            }
        } else if forall|i: int|
            0 <= i < components.len() ==> component_placed(
                files,
                path,
                #[trigger] components[i],
                transforms,
                depth,
            ) is Ok {
            assert(component_placed(
                files,
                path,
                components[components.len() - 1],
                transforms,
                depth,
            ) is Ok);
            assert forall|i: int| 0 <= i < first.len() implies component_placed(
                files,
                path,
                #[trigger] first[i],
                transforms,
                depth,
            ) is Ok by {
                assert(component_placed(files, path, components[i], transforms, depth) is Ok);
            }
        }
    }
}

proof fn lemma_component_pieces(
    files: Seq<FileView>,
    path: Seq<char>,
    components: Seq<PlacementView>,
    transforms: Seq<TransformView>,
    depth: int,
    positions: Seq<Positions>,
)
    requires
        depth <= MAX_DEPTH,
        placed_components(files, path, components, transforms, depth) is Ok,
        positions.len() == placed_components(
            files,
            path,
            components,
            transforms,
            depth,
        )->Ok_0.len(),
    ensures
        component_pieces(files, path, components, transforms, depth, positions) == scene_pieces(
            placed_components(files, path, components, transforms, depth)->Ok_0,
            positions,
            positions.len() as int,
        ),
    decreases components.len(),
{
    if components.len() > 0 {
        let c = components.last();
        let first = components.drop_last();
        let before = placed_components(files, path, first, transforms, depth)->Ok_0;
        let more = component_placed(files, path, c, transforms, depth)->Ok_0;
        let count = before.len() as int;
        lemma_component_pieces(files, path, first, transforms, depth, positions.take(count));
        lemma_pieces_joined(before, more, positions.take(count), positions.skip(count));
        assert(positions.take(count) + positions.skip(count) =~= positions);
    }
}

/// The triangles of placed objects and more of them are those of the former and of the latter.
proof fn lemma_pieces_joined(
    a: Seq<PlacedView>,
    b: Seq<PlacedView>,
    p: Seq<Positions>,
    q: Seq<Positions>,
)
    requires
        a.len() == p.len(),
        b.len() == q.len(),
    ensures
        scene_pieces(a + b, p + q, (a + b).len() as int) == scene_pieces(a, p, a.len() as int)
            + scene_pieces(b, q, b.len() as int),
{
    lemma_pieces_before(a, b, p, q, a.len() as int);
    lemma_pieces_behind(a, b, p, q, b.len() as int);
}

proof fn lemma_pieces_before(
    a: Seq<PlacedView>,
    b: Seq<PlacedView>,
    p: Seq<Positions>,
    q: Seq<Positions>,
    n: int,
)
    requires
        a.len() == p.len(),
        n <= a.len(),
    ensures
        scene_pieces(a + b, p + q, n) == scene_pieces(a, p, n),
    decreases n,
{
    if n > 0 {
        lemma_pieces_before(a, b, p, q, n - 1);
    }
}

proof fn lemma_pieces_behind(
    a: Seq<PlacedView>,
    b: Seq<PlacedView>,
    p: Seq<Positions>,
    q: Seq<Positions>,
    n: int,
)
    requires
        a.len() == p.len(),
        b.len() == q.len(),
        0 <= n <= b.len(),
        scene_pieces(a + b, p + q, a.len() as int) == scene_pieces(a, p, a.len() as int),
    ensures
        scene_pieces(a + b, p + q, a.len() + n) == scene_pieces(a, p, a.len() as int)
            + scene_pieces(b, q, n),
    decreases n,
{
    if n > 0 {
        lemma_pieces_behind(a, b, p, q, n - 1);
        assert((a + b)[a.len() + n - 1] == b[n - 1]);
        assert((p + q)[a.len() + n - 1] == q[n - 1]);
        let last = object_pieces(
            q[n - 1].vertices@,
            q[n - 1].mirrored,
            b[n - 1].object.triangles.take(b[n - 1].triangles),
        );
        assert(scene_pieces(a, p, a.len() as int) + scene_pieces(b, q, n - 1) + last
            =~= scene_pieces(a, p, a.len() as int) + (scene_pieces(b, q, n - 1) + last));
    } else {
        assert(scene_pieces(a, p, a.len() as int) + Seq::<Piece>::empty() =~= scene_pieces(
            a,
            p,
            a.len() as int,
        ));
    }
}

} // verus!

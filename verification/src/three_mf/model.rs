//! Model files: the objects of a 3MF package and the items to print.
use std::collections::HashMap;
use vstd::prelude::*;

use super::archive::{pending, OpenEntry};
use super::attributes::{
    attribute, attribute_value, names_view, real_numbers, real_values, reals_view, whole_numbers,
    whole_values, Fault, ModelError,
};
use crate::numbers::{is_real, split_words, words, words_view, Real};
use super::path::{normalize_path, normalized};
use super::xml::{
    event_view, is_name, named, Element, ElementView, EventView, XmlEvent,
};
use crate::sequences::lemma_push_contains;
use crate::text;

verus! {

/// Where an object is placed.
pub enum Transform {
    /// Where it is.
    Identity,
    /// A 4x3 matrix of twelve numbers, row by row, applied to row vectors.
    Matrix(Vec<Real>),
}

/// An object that is placed somewhere.
pub struct Placement {
    pub objectid: u64,
    /// Model file holding the object, when it is not the file holding the placement.
    pub path: Option<String>,
    pub transform: Transform,
}

/// A vertex of an object.
pub struct Position {
    pub x: Real,
    pub y: Real,
    pub z: Real,
}

/// A triangle of an object, by the numbers of its vertices.
#[derive(Clone, Copy, PartialEq, Eq, Structural, Debug)]
pub struct Face {
    pub a: usize,
    pub b: usize,
    pub c: usize,
}

/// An object: a mesh, or components that place other objects.
pub struct Object {
    pub vertices: Vec<Position>,
    pub triangles: Vec<Face>,
    pub components: Vec<Placement>,
}

/// A model file.
pub struct ModelFile {
    pub objects: HashMap<u64, Object>,
    /// The ids of the objects, each of them once.
    pub ids: Vec<u64>,
    pub build: Vec<Placement>,
}

// ---------------------------------------------------------------------------
// Models
// ---------------------------------------------------------------------------

/// The model of a `Transform`.
pub enum TransformView {
    Identity,
    Matrix(Seq<Seq<char>>),
}

/// The model of a `Placement`.
pub struct PlacementView {
    pub objectid: u64,
    pub path: Option<Seq<char>>,
    pub transform: TransformView,
}

/// The model of a `Position`.
pub struct PositionView {
    pub x: Seq<char>,
    pub y: Seq<char>,
    pub z: Seq<char>,
}

/// The model of an `Object`.
#[verifier::ext_equal]
pub struct ObjectView {
    pub vertices: Seq<PositionView>,
    pub triangles: Seq<Face>,
    pub components: Seq<PlacementView>,
}

/// The model of a `ModelFile`.
#[verifier::ext_equal]
pub struct ModelView {
    pub objects: Map<u64, ObjectView>,
    pub ids: Seq<u64>,
    pub build: Seq<PlacementView>,
}

impl View for Transform {
    type V = TransformView;

    open spec fn view(&self) -> TransformView {
        match self {
            Transform::Identity => TransformView::Identity,
            Transform::Matrix(m) => TransformView::Matrix(reals_view(m@)),
        }
    }
}

/// The model of a string that may be missing.
pub open spec fn option_view(s: Option<String>) -> Option<Seq<char>> {
    match s {
        Some(s) => Some(s@),
        None => None,
    }
}

impl View for Placement {
    type V = PlacementView;

    open spec fn view(&self) -> PlacementView {
        PlacementView {
            objectid: self.objectid,
            path: option_view(self.path),
            transform: self.transform@,
        }
    }
}

impl View for Position {
    type V = PositionView;

    open spec fn view(&self) -> PositionView {
        PositionView { x: self.x@, y: self.y@, z: self.z@ }
    }
}

/// The models of several placements.
pub open spec fn placements_view(placements: Seq<Placement>) -> Seq<PlacementView> {
    placements.map_values(|p: Placement| p@)
}

/// The models of several vertices.
pub open spec fn positions_view(positions: Seq<Position>) -> Seq<PositionView> {
    positions.map_values(|p: Position| p@)
}

impl View for Object {
    type V = ObjectView;

    open spec fn view(&self) -> ObjectView {
        ObjectView {
            vertices: positions_view(self.vertices@),
            triangles: self.triangles@,
            components: placements_view(self.components@),
        }
    }
}

/// The models of several objects.
pub open spec fn objects_view(objects: Map<u64, Object>) -> Map<u64, ObjectView> {
    objects.map_values(|o: Object| o@)
}

impl View for ModelFile {
    type V = ModelView;

    open spec fn view(&self) -> ModelView {
        ModelView {
            objects: objects_view(self.objects@),
            ids: self.ids@,
            build: placements_view(self.build@),
        }
    }
}

impl ObjectView {
    /// An object without anything.
    pub open spec fn empty() -> ObjectView {
        ObjectView { vertices: Seq::empty(), triangles: Seq::empty(), components: Seq::empty() }
    }
}

impl ModelView {
    /// A model file without anything.
    pub open spec fn empty() -> ModelView {
        ModelView { objects: Map::empty(), ids: Seq::empty(), build: Seq::empty() }
    }

    /// The model file with one more object, which replaces one with the same id.
    pub open spec fn insert(self, id: u64, object: ObjectView) -> ModelView {
        ModelView {
            objects: self.objects.insert(id, object),
            ids: if self.objects.contains_key(id) {
                self.ids
            } else {
                self.ids.push(id)
            },
            build: self.build,
        }
    }

    /// The ids are those of the objects, each of them once.
    pub open spec fn is_consistent(self) -> bool {
        &&& self.ids.no_duplicates()
        &&& forall|id: u64| #[trigger] self.ids.contains(id) <==> self.objects.contains_key(id)
    }
}

// ---------------------------------------------------------------------------
// Placements
// ---------------------------------------------------------------------------

/// The transform that a text stands for: twelve real numbers.
pub open spec fn transform_value(s: Seq<char>) -> Option<TransformView> {
    let ws = words(s);
    if ws.len() == 12 && forall|i: int| 0 <= i < ws.len() ==> is_real(#[trigger] ws[i]) {
        Some(TransformView::Matrix(ws))
    } else {
        None
    }
}

/// Parses a 3MF transform: a 4x3 matrix of 12 numbers, applied to row vectors.
pub fn parse_transform(s: &str) -> (r: Option<Transform>)
    ensures
        match r {
            Some(t) => transform_value(s@) == Some(t@),
            None => transform_value(s@) is None,
        },
{
    let cs = text::chars(s);
    let ws = split_words(cs.as_slice());
    let ghost all = words(s@);
    let mut m: Vec<Real> = Vec::new();
    assert(reals_view(m@) =~= all.take(0));
    for i in 0..ws.len()
        invariant
            all == words(s@),
            words_view(ws@) == all,
            reals_view(m@) == all.take(i as int),
            forall|j: int| 0 <= j < i ==> is_real(#[trigger] all[j]),
    {
        assert(all[i as int] == ws@[i as int]@);
        let ghost before = reals_view(m@);
        match Real::from_chars(ws[i].as_slice()) {
            Some(n) => {
                let ghost v = n@;
                m.push(n);
                assert(reals_view(m@) =~= before.push(v));
                assert(all.take(i + 1) =~= all.take(i as int).push(all[i as int]));
            },
            None => {
                assert(!is_real(all[i as int]));
                return None;
            },
        }
    }
    assert(all.take(all.len() as int) =~= all);
    if m.len() != 12 {
        assert(reals_view(m@).len() == m@.len());
        return None;
    }
    Some(Transform::Matrix(m))
}

/// The transform of a placement.
pub open spec fn placement_transform(e: ElementView) -> Result<TransformView, Fault> {
    match attribute_value(e, "transform"@) {
        Err(fault) => Err(fault),
        Ok(None) => Ok(TransformView::Identity),
        Ok(Some(text)) => match transform_value(text) {
            Some(t) => Ok(t),
            None => Err(Fault::Transform { text }),
        },
    }
}

/// The placement that an element describes.
pub open spec fn placement_value(e: ElementView) -> Result<PlacementView, Fault> {
    match placement_transform(e) {
        Err(fault) => Err(fault),
        Ok(transform) => match whole_values(e, seq!["objectid"@], u64::MAX) {
            Err(fault) => Err(fault),
            Ok(ids) => match attribute_value(e, "path"@) {
                Err(fault) => Err(fault),
                Ok(path) => Ok(
                    PlacementView {
                        objectid: ids[0],
                        path: match path {
                            Some(path) => Some(normalized(path)),
                            None => None,
                        },
                        transform,
                    },
                ),
            },
        },
    }
}

/// Reads the placement that an element describes.
pub fn placement(e: &Element) -> (r: Result<Placement, ModelError>)
    ensures
        match r {
            Ok(p) => placement_value(e@) == Ok::<_, Fault>(p@),
            Err(error) => placement_value(e@) == Err::<PlacementView, _>(error@),
        },
{
    let transform = match attribute(e, "transform") {
        Err(error) => return Err(error),
        Ok(None) => Transform::Identity,
        Ok(Some(text)) => match parse_transform(text.as_str()) {
            Some(t) => t,
            None => return Err(ModelError::Transform { text }),
        },
    };
    let ids = match whole_numbers(e, &["objectid"], u64::MAX) {
        Err(error) => {
            assert(names_view(["objectid"]@) =~= seq!["objectid"@]);
            return Err(error);
        },
        Ok(ids) => ids,
    };
    assert(names_view(["objectid"]@) =~= seq!["objectid"@]);
    let path = match attribute(e, "path") {
        Err(error) => return Err(error),
        Ok(None) => None,
        Ok(Some(path)) => Some(normalize_path(path.as_str())),
    };
    Ok(Placement { objectid: ids[0], path, transform })
}

// ---------------------------------------------------------------------------
// Reading a model file
// ---------------------------------------------------------------------------

/// Where reading a model file has come to: what was read, the object being read, and whether the
/// mesh of an object or the build is being read. Checking the latter keeps extension elements
/// with the same names from being picked up.
#[verifier::ext_equal]
pub struct ProgressView {
    pub model: ModelView,
    pub object: Option<(u64, ObjectView)>,
    pub in_mesh: bool,
    pub in_build: bool,
}

impl ProgressView {
    /// Nothing was read.
    pub open spec fn start() -> ProgressView {
        ProgressView {
            model: ModelView::empty(),
            object: None,
            in_mesh: false,
            in_build: false,
        }
    }
}

/// What the start of an element, or an empty element, adds.
pub open spec fn opened(p: ProgressView, e: ElementView, empty: bool) -> Result<
    ProgressView,
    Fault,
> {
    if is_name(e.name, "object"@) {
        match whole_values(e, seq!["id"@], u64::MAX) {
            Err(fault) => Err(fault),
            Ok(ids) => if empty {
                Ok(ProgressView { model: p.model.insert(ids[0], ObjectView::empty()), ..p })
            } else {
                Ok(ProgressView { object: Some((ids[0], ObjectView::empty())), ..p })
            },
        }
    } else if is_name(e.name, "mesh"@) {
        Ok(ProgressView { in_mesh: !empty, ..p })
    } else if is_name(e.name, "build"@) {
        Ok(ProgressView { in_build: !empty, ..p })
    } else if is_name(e.name, "vertex"@) && p.in_mesh {
        match (p.object, real_values(e, seq!["x"@, "y"@, "z"@])) {
            (None, _) => Ok(p),
            (Some(_), Err(fault)) => Err(fault),
            (Some((id, object)), Ok(v)) => Ok(
                ProgressView {
                    object: Some(
                        (
                            id,
                            ObjectView {
                                vertices: object.vertices.push(
                                    PositionView { x: v[0], y: v[1], z: v[2] },
                                ),
                                ..object
                            },
                        ),
                    ),
                    ..p
                },
            ),
        }
    } else if is_name(e.name, "triangle"@) && p.in_mesh {
        match (p.object, whole_values(e, seq!["v1"@, "v2"@, "v3"@], usize::MAX as u64)) {
            (None, _) => Ok(p),
            (Some(_), Err(fault)) => Err(fault),
            (Some((id, object)), Ok(v)) => Ok(
                ProgressView {
                    object: Some(
                        (
                            id,
                            ObjectView {
                                triangles: object.triangles.push(
                                    Face { a: v[0] as usize, b: v[1] as usize, c: v[2] as usize },
                                ),
                                ..object
                            },
                        ),
                    ),
                    ..p
                },
            ),
        }
    } else if is_name(e.name, "component"@) {
        match (p.object, placement_value(e)) {
            (None, _) => Ok(p),
            (Some(_), Err(fault)) => Err(fault),
            (Some((id, object)), Ok(component)) => Ok(
                ProgressView {
                    object: Some(
                        (
                            id,
                            ObjectView { components: object.components.push(component), ..object },
                        ),
                    ),
                    ..p
                },
            ),
        }
    } else if is_name(e.name, "item"@) && p.in_build {
        match placement_value(e) {
            Err(fault) => Err(fault),
            Ok(item) => Ok(
                ProgressView {
                    model: ModelView { build: p.model.build.push(item), ..p.model },
                    ..p
                },
            ),
        }
    } else {
        Ok(p)
    }
}

/// What the end of an element adds.
pub open spec fn closed(p: ProgressView, name: Seq<u8>) -> ProgressView {
    if is_name(name, "object"@) {
        match p.object {
            Some((id, object)) => ProgressView {
                model: p.model.insert(id, object),
                object: None,
                ..p
            },
            None => p,
        }
    } else if is_name(name, "mesh"@) {
        ProgressView { in_mesh: false, ..p }
    } else if is_name(name, "build"@) {
        ProgressView { in_build: false, ..p }
    } else {
        p
    }
}

/// What an event adds, and whether it is the last.
pub open spec fn advanced(p: ProgressView, event: Option<EventView>) -> Result<
    (ProgressView, bool),
    Fault,
> {
    match event {
        None => Err(Fault::Xml),
        Some(EventView::End) => Ok((p, true)),
        Some(EventView::Other) => Ok((p, false)),
        Some(EventView::Close { name }) => Ok((closed(p, name), false)),
        Some(EventView::Open { element, empty }) => match opened(p, element, empty) {
            Err(fault) => Err(fault),
            Ok(next) => Ok((next, false)),
        },
    }
}

/// The model file that the rest of its events lead to.
pub open spec fn model_from(events: Seq<Option<EventView>>, p: ProgressView) -> Result<
    ModelView,
    Fault,
>
    decreases events.len(),
{
    if events.len() == 0 {
        Ok(p.model)
    } else {
        match advanced(p, events[0]) {
            Err(fault) => Err(fault),
            Ok((next, last)) => if last {
                Ok(next.model)
            } else {
                model_from(events.skip(1), next)
            },
        }
    }
}

/// The model file that the events of a file describe.
pub open spec fn model_value(events: Seq<Option<EventView>>) -> Result<ModelView, Fault> {
    model_from(events, ProgressView::start())
}

/// Where reading a model file has come to.
pub struct Progress {
    model: ModelFile,
    object: Option<(u64, Object)>,
    in_mesh: bool,
    in_build: bool,
}

impl View for Progress {
    type V = ProgressView;

    closed spec fn view(&self) -> ProgressView {
        ProgressView {
            model: self.model@,
            object: match self.object {
                Some((id, object)) => Some((id, object@)),
                None => None,
            },
            in_mesh: self.in_mesh,
            in_build: self.in_build,
        }
    }
}

impl Object {
    /// An object without anything.
    fn new() -> (r: Object)
        ensures
            r@ == ObjectView::empty(),
    {
        let r = Object { vertices: Vec::new(), triangles: Vec::new(), components: Vec::new() };
        assert(r@ =~= ObjectView::empty());
        r
    }
}

impl ModelFile {
    /// A model file without anything.
    fn new() -> (r: ModelFile)
        ensures
            r@ == ModelView::empty(),
    {
        let r = ModelFile { objects: HashMap::new(), ids: Vec::new(), build: Vec::new() };
        assert(r@ =~= ModelView::empty());
        r
    }

    /// Adds an object, which replaces one with the same id.
    fn insert(&mut self, id: u64, object: Object)
        ensures
            final(self)@ == old(self)@.insert(id, object@),
    {
        let ghost before = self@;
        let ghost added = object@;
        if !self.objects.contains_key(&id) {
            self.ids.push(id);
        }
        self.objects.insert(id, object);
        assert(self@ =~= before.insert(id, added));
    }
}

impl Progress {
    /// Nothing was read.
    pub fn new() -> (r: Progress)
        ensures
            r@ == ProgressView::start(),
    {
        let r = Progress { model: ModelFile::new(), object: None, in_mesh: false, in_build: false };
        assert(r@ =~= ProgressView::start());
        r
    }

    /// What was read.
    pub fn finish(self) -> (r: ModelFile)
        ensures
            r@ == self@.model,
    {
        self.model
    }

    /// Takes in the start of an element, or an empty element.
    pub fn open(&mut self, e: &Element, empty: bool) -> (r: Result<(), ModelError>)
        ensures
            match r {
                Ok(_) => opened(old(self)@, e@, empty) == Ok::<_, Fault>(final(self)@),
                Err(error) => opened(old(self)@, e@, empty) == Err::<ProgressView, _>(error@),
            },
    {
        let name = e.name.as_slice();
        if named(name, "object") {
            assert(names_view(["id"]@) =~= seq!["id"@]);
            let ids = match whole_numbers(e, &["id"], u64::MAX) {
                Ok(ids) => ids,
                Err(error) => return Err(error),
            };
            if empty {
                self.model.insert(ids[0], Object::new());
            } else {
                self.object = Some((ids[0], Object::new()));
            }
        } else if named(name, "mesh") {
            self.in_mesh = !empty;
        } else if named(name, "build") {
            self.in_build = !empty;
        } else if named(name, "vertex") && self.in_mesh {
            if let Some((id, mut object)) = self.object.take() {
                assert(names_view(["x", "y", "z"]@) =~= seq!["x"@, "y"@, "z"@]);
                let mut v = match real_numbers(e, &["x", "y", "z"]) {
                    Ok(v) => v,
                    Err(error) => return Err(error),
                };
                let ghost all = reals_view(v@);
                let ghost before = object@;
                let z = v.pop().unwrap();
                let y = v.pop().unwrap();
                let x = v.pop().unwrap();
                assert(all[0] == x@ && all[1] == y@ && all[2] == z@);
                let position = Position { x, y, z };
                let ghost added = position@;
                object.vertices.push(position);
                assert(object@ =~= (ObjectView {
                    vertices: before.vertices.push(added),
                    ..before
                }));
                self.object = Some((id, object));
            }
        } else if named(name, "triangle") && self.in_mesh {
            if let Some((id, mut object)) = self.object.take() {
                assert(names_view(["v1", "v2", "v3"]@) =~= seq!["v1"@, "v2"@, "v3"@]);
                let v = match whole_numbers(e, &["v1", "v2", "v3"], usize::MAX as u64) {
                    Ok(v) => v,
                    Err(error) => return Err(error),
                };
                let ghost before = object@;
                let face = Face { a: v[0] as usize, b: v[1] as usize, c: v[2] as usize };
                object.triangles.push(face);
                assert(object@ =~= (ObjectView {
                    triangles: before.triangles.push(face),
                    ..before
                }));
                self.object = Some((id, object));
            }
        } else if named(name, "component") {
            if let Some((id, mut object)) = self.object.take() {
                let component = match placement(e) {
                    Ok(component) => component,
                    Err(error) => return Err(error),
                };
                let ghost before = object@;
                let ghost added = component@;
                object.components.push(component);
                assert(object@ =~= (ObjectView {
                    components: before.components.push(added),
                    ..before
                }));
                self.object = Some((id, object));
            }
        } else if named(name, "item") && self.in_build {
            let item = match placement(e) {
                Ok(item) => item,
                Err(error) => return Err(error),
            };
            let ghost before = self.model@;
            let ghost added = item@;
            self.model.build.push(item);
            assert(self.model@ =~= (ModelView { build: before.build.push(added), ..before }));
        }
        Ok(())
    }

    /// Takes in the end of an element.
    pub fn close(&mut self, name: &Vec<u8>)
        ensures
            final(self)@ == closed(old(self)@, name@),
    {
        let name = name.as_slice();
        if named(name, "object") {
            if let Some((id, object)) = self.object.take() {
                self.model.insert(id, object);
            }
        } else if named(name, "mesh") {
            self.in_mesh = false;
        } else if named(name, "build") {
            self.in_build = false;
        }
    }
}

impl Progress {
    /// Takes in what reading an event gave. Tells whether it was the last.
    pub fn advance(&mut self, event: Result<XmlEvent, quick_xml::Error>) -> (r: Result<
        bool,
        ModelError,
    >)
        ensures
            match r {
                Ok(last) => advanced(old(self)@, event_view(event)) == Ok::<_, Fault>(
                    (final(self)@, last),
                ),
                Err(error) => advanced(old(self)@, event_view(event)) == Err::<
                    (ProgressView, bool),
                    _,
                >(error@),
            },
    {
        match event {
            Ok(XmlEvent::Open { element, empty }) => match self.open(&element, empty) {
                Ok(_) => Ok(false),
                Err(error) => Err(error),
            },
            Ok(XmlEvent::Close { name }) => {
                self.close(&name);
                Ok(false)
            },
            Ok(XmlEvent::End) => Ok(true),
            Ok(XmlEvent::Other) => Ok(false),
            Err(error) => Err(ModelError::Xml(error)),
        }
    }
}

/// Reads a model file.
pub fn parse_model(file: OpenEntry) -> (r: Result<ModelFile, ModelError>)
    requires
        pending(file).len() > 0,
    ensures
        match r {
            Ok(model) => model_value(pending(file)) == Ok::<_, Fault>(model@),
            Err(error) => model_value(pending(file)) == Err::<ModelView, _>(error@),
        },
{
    let mut reader = file;
    let mut progress = Progress::new();
    loop
        invariant
            pending(reader).len() > 0,
            model_value(pending(file)) == model_from(pending(reader), progress@),
        decreases pending(reader).len(),
    {
        match progress.advance(reader.next_event()) {
            Ok(last) => if last {
                return Ok(progress.finish());
            },
            Err(error) => return Err(error),
        }
    }
}

// ---------------------------------------------------------------------------
// Laws
// ---------------------------------------------------------------------------

/// Vertices and triangles outside a mesh, such as those of extensions, are ignored.
pub proof fn law_outside_mesh(p: ProgressView, e: ElementView, empty: bool)
    requires
        !p.in_mesh,
        is_name(e.name, "vertex"@) || is_name(e.name, "triangle"@),
    ensures
        opened(p, e, empty) == Ok::<_, Fault>(p),
{
    lemma_different_names(e.name);
}

/// Items outside the build are ignored.
pub proof fn law_outside_build(p: ProgressView, e: ElementView, empty: bool)
    requires
        !p.in_build,
        is_name(e.name, "item"@),
    ensures
        opened(p, e, empty) == Ok::<_, Fault>(p),
{
    lemma_different_names(e.name);
}

proof fn lemma_different_names(name: Seq<u8>)
    ensures
        is_name(name, "vertex"@) || is_name(name, "triangle"@) || is_name(name, "item"@)
            ==> !is_name(name, "object"@) && !is_name(name, "mesh"@) && !is_name(name, "build"@)
            && !is_name(name, "component"@),
        is_name(name, "vertex"@) ==> !is_name(name, "triangle"@) && !is_name(name, "item"@),
        is_name(name, "triangle"@) ==> !is_name(name, "item"@),
{
    reveal_strlit("vertex");
    reveal_strlit("triangle");
    reveal_strlit("item");
    reveal_strlit("object");
    reveal_strlit("mesh");
    reveal_strlit("build");
    reveal_strlit("component");
    if is_name(name, "vertex"@) {
        assert(name[0] as char == 'v');
    }
    if is_name(name, "item"@) {
        assert(name[0] as char == 'i');
    }
    if is_name(name, "object"@) {
        assert(name[0] as char == 'o');
    }
    if is_name(name, "mesh"@) {
        assert(name[0] as char == 'm');
    }
}

/// The ids of a model file are those of its objects, each of them once.
pub proof fn law_ids(events: Seq<Option<EventView>>)
    ensures
        model_value(events) matches Ok(model) ==> model.is_consistent(),
{
    lemma_model_from_consistent(events, ProgressView::start());
}

proof fn lemma_insert_consistent(model: ModelView, id: u64, object: ObjectView)
    requires
        model.is_consistent(),
    ensures
        model.insert(id, object).is_consistent(),
{
    let after = model.insert(id, object);
    assert forall|x: u64| #[trigger] after.ids.contains(x) <==> after.objects.contains_key(x) by {
        assert(model.ids.contains(x) <==> model.objects.contains_key(x));
        if !model.objects.contains_key(id) {
            lemma_push_contains(model.ids, id, x);
        }
    }
    if !model.objects.contains_key(id) {
        assert(!model.ids.contains(id));
        assert forall|i: int, j: int|
            0 <= i < after.ids.len() && 0 <= j < after.ids.len() && i != j implies after.ids[i]
            != after.ids[j] by {
            if i < model.ids.len() {
                assert(model.ids.contains(after.ids[i]));
            }
            if j < model.ids.len() {
                assert(model.ids.contains(after.ids[j]));
            }
        }
    }
}

proof fn lemma_model_from_consistent(events: Seq<Option<EventView>>, p: ProgressView)
    requires
        p.model.is_consistent(),
    ensures
        model_from(events, p) matches Ok(model) ==> model.is_consistent(),
    decreases events.len(),
{
    if events.len() > 0 {
        let rest = events.skip(1);
        match events[0] {
            Some(EventView::Other) => lemma_model_from_consistent(rest, p),
            Some(EventView::Close { name }) => {
                if let Some((id, object)) = p.object {
                    lemma_insert_consistent(p.model, id, object);
                }
                lemma_model_from_consistent(rest, closed(p, name));
            },
            Some(EventView::Open { element, empty }) => {
                if let Ok(ids) = whole_values(element, seq!["id"@], u64::MAX) {
                    lemma_insert_consistent(p.model, ids[0], ObjectView::empty());
                }
                if let Ok(next) = opened(p, element, empty) {
                    lemma_model_from_consistent(rest, next);
                }
            },
            _ => {},
        }
    }
}

} // verus!

//! What the functions on model files give, and what the models of their values are.
use vstd::prelude::*;

use super::archive::{pending, OpenEntry};
use super::attributes::{
    attribute, attribute_value, number_values, numbers, real_numbers, real_values, whole_numbers,
    whole_values, Fault, Kind, ModelError, Number, NumberView,
};
use super::model::{
    model_value, parse_model, parse_transform, placement, placement_value, transform_value,
    ModelFile, ModelView, Object, Placement, PlacementView, Position, Progress, Transform,
    TransformView,
};
use super::model_laws::is_start;
use super::package::{
    files_view, package_value, read_package, related_model, related_root, relationship_root,
    root_from, File, FileView, Package, PackageError, PackageFault,
};
use super::scene::{
    is_3mf_load, placed_objects, places_objects, scene, PlacedObject, PlacedView, Positions,
    SceneError, ThreeMfError,
};
use super::xml::{Attribute, Element, EventView, XmlEvent};
use crate::mesh::triangles::{finds_normals, Mesh, Normal, Triangle};
use crate::numbers::{is_real, Real};

verus! {

// ---------------------------------------------------------------------------
// Values
// ---------------------------------------------------------------------------

/// The model of an element is its name and its attributes, of which those that are not
/// well-formed are missing.
pub proof fn law_element(e: Element, i: int)
    ensures
        e@.name == e.name@,
        e@.attributes.len() == e.attributes@.len(),
        0 <= i < e.attributes@.len() ==> match e.attributes@[i] {
            Ok(a) => e@.attributes[i] matches Some(v) && v.name == a.name@ && v.value == a.value@,
            Err(_) => e@.attributes[i] is None,
        },
{
}

/// The model of an event is what the event says.
pub proof fn law_event(event: XmlEvent)
    ensures
        match event {
            XmlEvent::Open { element, empty } => event@ == (EventView::Open {
                element: element@,
                empty,
            }),
            XmlEvent::Close { name } => event@ == (EventView::Close { name: name@ }),
            XmlEvent::End => event@ == EventView::End,
            XmlEvent::Other => event@ == EventView::Other,
        },
{
}

/// A real number is the text that it was made from, and gives that text back.
pub proof fn law_real_text(text: &str, r: Option<Real>, number: Real, back: &str)
    requires
        call_ensures(Real::parse, (text,), r),
        r == Some(number),
        call_ensures(Real::text, (&number,), back),
    ensures
        is_real(text@),
        back@ == text@,
        number@ == text@,
{
}

/// The model of a number is the number.
pub proof fn law_number_view(n: Number)
    ensures
        match n {
            Number::Whole(value) => n@ == NumberView::Whole(value),
            Number::Real(value) => n@ == NumberView::Real(value@),
        },
{
}

/// The model of a transform is its numbers in order.
pub proof fn law_transform_view(t: Transform, i: int)
    ensures
        match t {
            Transform::Identity => t@ == TransformView::Identity,
            Transform::Matrix(m) => t@ matches TransformView::Matrix(v) && v.len() == m@.len() && (0
                <= i < m@.len() ==> v[i] == m@[i]@),
        },
{
}

/// The model of a placement is what it says of the object, the file and the transform.
pub proof fn law_placement_view(p: Placement)
    ensures
        p@.objectid == p.objectid,
        p@.transform == p.transform@,
        match p.path {
            Some(path) => p@.path == Some(path@),
            None => p@.path is None,
        },
{
}

/// The model of a vertex is its coordinates, and that of an object its vertices, its triangles and
/// its components, each in order.
pub proof fn law_object_view(p: Position, o: Object, i: int)
    ensures
        p@.x == p.x@ && p@.y == p.y@ && p@.z == p.z@,
        o@.vertices.len() == o.vertices@.len(),
        0 <= i < o.vertices@.len() ==> o@.vertices[i] == o.vertices@[i]@,
        o@.triangles == o.triangles@,
        o@.components.len() == o.components@.len(),
        0 <= i < o.components@.len() ==> o@.components[i] == o.components@[i]@,
{
}

/// The model of a model file is its objects by their ids, the ids and the items in order.
pub proof fn law_model_view(m: ModelFile, id: u64, i: int)
    ensures
        m@.objects.contains_key(id) <==> m.objects@.contains_key(id),
        m.objects@.contains_key(id) ==> m@.objects[id] == m.objects@[id]@,
        m@.ids == m.ids@,
        m@.build.len() == m.build@.len(),
        0 <= i < m.build@.len() ==> m@.build[i] == m.build@[i]@,
{
}

/// The model of a file is its path and its model file.
pub proof fn law_file_view(files: Seq<File>, i: int)
    ensures
        files_view(files).len() == files.len(),
        0 <= i < files.len() ==> files_view(files)[i].path == files[i].path@ && files_view(
            files,
        )[i].model == files[i].model@,
{
}

/// The model of a placed object is the object, its transforms in order and how many of its
/// triangles are drawn.
pub proof fn law_placed_view(p: PlacedObject, i: int)
    ensures
        p@.object == p.object@,
        p@.triangles == p.triangles,
        p@.transforms.len() == p.transforms@.len(),
        0 <= i < p.transforms@.len() ==> p@.transforms[i] == p.transforms@[i]@,
{
}

/// What an error is about is what it says.
pub proof fn law_error_view(e: ModelError, p: PackageError)
    ensures
        match e {
            ModelError::Xml(_) => e@ == Fault::Xml,
            ModelError::Attribute(_) => e@ == Fault::Attribute,
            ModelError::Text { value } => e@ == (Fault::Text { value: value@ }),
            ModelError::Invalid { element, attribute, value } => e@ == (Fault::Invalid {
                element: element@,
                attribute: attribute@,
                value: value@,
            }),
            ModelError::Missing { element, attribute } => e@ == (Fault::Missing {
                element: element@,
                attribute: attribute@,
            }),
            ModelError::Transform { text } => e@ == (Fault::Transform { text: text@ }),
        },
        match p {
            PackageError::Archive(_) => p@ == PackageFault::Archive,
            PackageError::Entry(_) => p@ == PackageFault::Entry,
            PackageError::Model { path, error } => p@ == (PackageFault::Model {
                path: path@,
                fault: error@,
            }),
            PackageError::Relationships(error) => p@ == PackageFault::Relationships(error@),
            PackageError::NoRoot => p@ == PackageFault::NoRoot,
        },
{
}

// ---------------------------------------------------------------------------
// Functions
// ---------------------------------------------------------------------------

/// Looking up an attribute gives its value.
pub proof fn law_attribute_function(
    e: &Element,
    name: &str,
    r: Result<Option<String>, ModelError>,
)
    requires
        call_ensures(attribute, (e, name), r),
    ensures
        attribute_value(e@, name@) == match r {
            Ok(Some(value)) => Ok::<_, Fault>(Some(value@)),
            Ok(None) => Ok(None),
            Err(error) => Err(error@),
        },
{
}

/// Whether names are those of several strings.
pub open spec fn are_strings(names: Seq<Seq<char>>, strings: Seq<&str>) -> bool {
    names.len() == strings.len() && forall|i: int|
        0 <= i < names.len() ==> #[trigger] names[i] == strings[i]@
}

proof fn lemma_strings(names: Seq<Seq<char>>, strings: Seq<&str>)
    requires
        are_strings(names, strings),
    ensures
        names == super::attributes::names_view(strings),
{
    assert(names =~= super::attributes::names_view(strings));
}

/// Numbers of an element are those that its attributes give to the names, in their order.
pub proof fn law_numbers_function(
    e: &Element,
    strings: &[&str],
    kind: Kind,
    r: Result<Vec<Number>, ModelError>,
    names: Seq<Seq<char>>,
    i: int,
)
    requires
        call_ensures(numbers, (e, strings, kind), r),
        are_strings(names, strings@),
    ensures
        match r {
            Ok(ns) => number_values(e@, names, kind) matches Ok(vs) && ns@.len() == names.len()
                && vs.len() == names.len() && (0 <= i < names.len() ==> ns@[i]@ == vs[i]),
            Err(error) => number_values(e@, names, kind) == Err::<Seq<NumberView>, _>(error@),
        },
{
    lemma_strings(names, strings@);
    if let Ok(ns) = r {
        let vs = number_values(e@, names, kind)->Ok_0;
        assert(super::attributes::numbers_view(ns@) == vs);
        if 0 <= i < names.len() {
            assert(super::attributes::numbers_view(ns@)[i] == ns@[i]@);
        }
    }
}

/// Whole numbers of an element are those that its attributes give to the names, in their order.
pub proof fn law_whole_numbers_function(
    e: &Element,
    strings: &[&str],
    max: u64,
    r: Result<Vec<u64>, ModelError>,
    names: Seq<Seq<char>>,
)
    requires
        call_ensures(whole_numbers, (e, strings, max), r),
        are_strings(names, strings@),
    ensures
        match r {
            Ok(ns) => whole_values(e@, names, max) == Ok::<_, Fault>(ns@),
            Err(error) => whole_values(e@, names, max) == Err::<Seq<u64>, _>(error@),
        },
{
    lemma_strings(names, strings@);
}

/// Real numbers of an element are those that its attributes give to the names, in their order.
pub proof fn law_real_numbers_function(
    e: &Element,
    strings: &[&str],
    r: Result<Vec<Real>, ModelError>,
    names: Seq<Seq<char>>,
    i: int,
)
    requires
        call_ensures(real_numbers, (e, strings), r),
        are_strings(names, strings@),
    ensures
        match r {
            Ok(ns) => real_values(e@, names) matches Ok(vs) && vs.len() == ns@.len() && (0 <= i
                < ns@.len() ==> ns@[i]@ == vs[i]),
            Err(error) => real_values(e@, names) == Err::<Seq<Seq<char>>, _>(error@),
        },
{
    lemma_strings(names, strings@);
}

/// Reading a transform or a placement gives the one that the text or the element describes.
pub proof fn law_placement_functions(
    s: &str,
    t: Option<Transform>,
    e: &Element,
    p: Result<Placement, ModelError>,
)
    requires
        call_ensures(parse_transform, (s,), t),
        call_ensures(placement, (e,), p),
    ensures
        match t {
            Some(t) => transform_value(s@) == Some(t@),
            None => transform_value(s@) is None,
        },
        match p {
            Ok(p) => placement_value(e@) == Ok::<_, Fault>(p@),
            Err(error) => placement_value(e@) == Err::<PlacementView, _>(error@),
        },
{
}

/// Reading starts with nothing and ends with the model file that was read.
pub proof fn law_progress_functions(start: Progress, p: Progress, m: ModelFile)
    requires
        call_ensures(Progress::new, (), start),
        call_ensures(Progress::finish, (p,), m),
    ensures
        is_start(start@),
        m@ == p@.model,
{
}

/// Reading a model file gives what its events describe.
pub proof fn law_parse_model(file: OpenEntry, r: Result<ModelFile, ModelError>)
    requires
        pending(file).len() > 0,
        call_ensures(parse_model, (file,), r),
    ensures
        match r {
            Ok(model) => model_value(pending(file)) == Ok::<_, Fault>(model@),
            Err(error) => model_value(pending(file)) == Err::<ModelView, _>(error@),
        },
{
}

/// Reading a package gives its model files and its root model.
pub proof fn law_read_package(bytes: &[u8], r: Result<Package, PackageError>)
    requires
        call_ensures(read_package, (bytes,), r),
    ensures
        match r {
            Ok(package) => package.root < package.files@.len() && package_value(bytes@) == Ok::<
                _,
                PackageFault,
            >((files_view(package.files@), package.root as int)),
            Err(error) => package_value(bytes@) == Err::<(Seq<FileView>, int), _>(error@),
        },
{
}

/// A relationship names the root model that its element describes.
pub proof fn law_relationship_root(
    files: &Vec<File>,
    e: &Element,
    r: Result<Option<usize>, ModelError>,
)
    requires
        call_ensures(relationship_root, (files, e), r),
    ensures
        related_model(files_view(files@), e@) == match r {
            Ok(Some(i)) => Ok::<_, Fault>(Some(i as int)),
            Ok(None) => Ok(None),
            Err(error) => Err(error@),
        },
{
}

/// The relationships name the root model that their events describe.
pub proof fn law_related_root_function(
    rels: OpenEntry,
    files: &Vec<File>,
    r: Result<Option<usize>, PackageError>,
)
    requires
        pending(rels).len() > 0,
        call_ensures(related_root, (rels, files), r),
    ensures
        root_from(pending(rels), files_view(files@)) == match r {
            Ok(Some(i)) => Ok::<_, PackageFault>(Some(i as int)),
            Ok(None) => Ok(None),
            Err(error) => Err(error@),
        },
{
}

/// The objects of a package are those of its scene, in order.
pub proof fn law_placed_objects(
    package: &Package,
    r: Result<Vec<PlacedObject>, SceneError>,
    i: int,
)
    requires
        package.root < package.files@.len(),
        call_ensures(placed_objects, (package,), r),
    ensures
        match r {
            Ok(placed) => scene(files_view(package.files@), package.root as int) matches Ok(all)
                && all.len() == placed@.len() && (0 <= i < all.len() ==> placed@[i]@ == all[i]),
            Err(error) => scene(files_view(package.files@), package.root as int) == Err::<
                Seq<PlacedView>,
                _,
            >(error),
        },
{
    if let Ok(placed) = r {
        let all = super::scene::placed_view(placed@);
        assert(all.len() == placed@.len());
    }
}

/// The loader of 3MF files loads exactly the bytes that it is given, whether normals are to be
/// calculated on demand or not.
pub proof fn law_from_3mf<P: Fn(&Object, &Vec<&Transform>) -> Positions, F: Fn(Triangle) -> Normal>(
    bytes: &[u8],
    recalc_normals: bool,
    place: &P,
    normal: &F,
    r: Result<Mesh, ThreeMfError>,
)
    requires
        places_objects(*place),
        finds_normals(*normal),
        call_ensures(Mesh::from_3mf, (bytes, recalc_normals, place, normal), r),
    ensures
        is_3mf_load(*place, *normal, bytes@, r),
{
}

} // verus!

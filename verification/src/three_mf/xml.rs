//! XML as a sequence of events.
use quick_xml::events::attributes::AttrError;
use vstd::prelude::*;

verus! {

/// An error of the XML reader.
#[verifier::external_type_specification]
#[verifier::external_body]
pub struct ExXmlError(quick_xml::Error);

/// An error in the attributes of an element.
#[verifier::external_type_specification]
#[verifier::external_body]
pub struct ExAttrError(AttrError);

/// An attribute of an element.
pub struct Attribute {
    /// The name without any namespace prefix.
    pub name: Vec<u8>,
    /// The value as it is written.
    pub value: Vec<u8>,
}

/// The start of an element, or an empty element.
pub struct Element {
    /// The name without any namespace prefix.
    pub name: Vec<u8>,
    /// The attributes, as far as they are well-formed.
    pub attributes: Vec<Result<Attribute, AttrError>>,
}

/// What an XML text is made of.
pub enum XmlEvent {
    /// `<name ...>`, or `<name .../>` when empty.
    Open { element: Element, empty: bool },
    /// `</name>`. The name is without any namespace prefix.
    Close { name: Vec<u8> },
    /// The end of the text.
    End,
    /// Text, comments and everything else.
    Other,
}

// ---------------------------------------------------------------------------
// Models
// ---------------------------------------------------------------------------

/// The model of an `Attribute`.
pub struct AttributeView {
    pub name: Seq<u8>,
    pub value: Seq<u8>,
}

/// The model of an `Element`. An attribute that is not well-formed is missing.
pub struct ElementView {
    pub name: Seq<u8>,
    pub attributes: Seq<Option<AttributeView>>,
}

/// The model of an `XmlEvent`.
pub enum EventView {
    Open { element: ElementView, empty: bool },
    Close { name: Seq<u8> },
    End,
    Other,
}

impl View for Attribute {
    type V = AttributeView;

    open spec fn view(&self) -> AttributeView {
        AttributeView { name: self.name@, value: self.value@ }
    }
}

/// The model of an attribute that may not be well-formed.
pub open spec fn attribute_view(
    a: Result<Attribute, AttrError>,
) -> Option<AttributeView> {
    match a {
        Ok(a) => Some(a@),
        Err(_) => None,
    }
}

impl View for Element {
    type V = ElementView;

    open spec fn view(&self) -> ElementView {
        ElementView {
            name: self.name@,
            attributes: self.attributes@.map_values(
                |a: Result<Attribute, AttrError>| attribute_view(a),
            ),
        }
    }
}

impl View for XmlEvent {
    type V = EventView;

    open spec fn view(&self) -> EventView {
        match self {
            XmlEvent::Open { element, empty } => EventView::Open {
                element: element@,
                empty: *empty,
            },
            XmlEvent::Close { name } => EventView::Close { name: name@ },
            XmlEvent::End => EventView::End,
            XmlEvent::Other => EventView::Other,
        }
    }
}

/// The model of what reading an event gives.
pub open spec fn event_view(e: Result<XmlEvent, quick_xml::Error>) -> Option<EventView> {
    match e {
        Ok(e) => Some(e@),
        Err(_) => None,
    }
}

// ---------------------------------------------------------------------------
// Names
// ---------------------------------------------------------------------------

/// Whether bytes are the characters of an ASCII name.
pub open spec fn is_name(bytes: Seq<u8>, name: Seq<char>) -> bool {
    bytes.len() == name.len() && forall|i: int|
        0 <= i < name.len() ==> #[trigger] bytes[i] as char == name[i]
}

/// Whether bytes are the characters of an ASCII name.
pub(crate) fn named(bytes: &[u8], name: &str) -> (r: bool)
    ensures
        r == is_name(bytes@, name@),
{
    let cs = crate::text::chars(name);
    if bytes.len() != cs.len() {
        return false;
    }
    for i in 0..bytes.len()
        invariant
            cs@ == name@,
            bytes@.len() == cs@.len(),
            forall|j: int| 0 <= j < i ==> #[trigger] bytes@[j] as char == name@[j],
    {
        if bytes[i] as char != cs[i] {
            assert(bytes@[i as int] as char != name@[i as int]);
            return false;
        }
    }
    true
}

} // verus!

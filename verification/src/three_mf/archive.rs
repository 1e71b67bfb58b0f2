//! Zip archives in memory.
use quick_xml::events::attributes::Attribute as RawAttribute;
use quick_xml::events::{BytesStart, Event};
use quick_xml::name::LocalName;
use quick_xml::Reader;
use std::io::{BufReader, Cursor};
use vstd::prelude::*;
use vstd::utf8::encode_utf8;
use zip::read::ZipFile;
use zip::result::ZipError;
use zip::ZipArchive;

use super::xml::{event_view, Attribute, Element, EventView, XmlEvent};

verus! {

/// A zip archive.
#[verifier::external_type_specification]
#[verifier::external_body]
#[verifier::reject_recursive_types(R)]
pub struct ExZipArchive<R>(ZipArchive<R>);

/// A reader of something in memory.
#[verifier::external_type_specification]
#[verifier::external_body]
#[verifier::reject_recursive_types(T)]
pub struct ExCursor<T>(Cursor<T>);

/// An error of the zip reader.
#[verifier::external_type_specification]
#[verifier::external_body]
pub struct ExZipError(ZipError);

/// A file in a zip archive.
pub struct EntryView {
    /// The bytes that the archive names the file by.
    pub key: Seq<u8>,
    /// The name of the file.
    pub name: Seq<char>,
    /// Whether the file can be opened.
    pub opens: bool,
    /// The XML events that can be read of the file once it is open, up to and with the end of the
    /// file or the first error. Damage that keeps the file from being read any further is an error
    /// too.
    pub events: Seq<Option<EventView>>,
}

/// What `ZipArchive::new` finds in bytes: the files of the archive in order, or nothing when the
/// bytes are no zip archive.
pub uninterp spec fn archive_entries(bytes: Seq<u8>) -> Option<Seq<EntryView>>;

/// The files of an archive, in order.
pub uninterp spec fn entries(zip: ZipArchive<Cursor<&[u8]>>) -> Seq<EntryView>;

/// A file of an archive that is open, as the sequence of XML events that `quick_xml::Reader` reads
/// of it through a buffer. Verus takes no declaration of `zip::read::ZipFile`, whose parameter is
/// bounded by `std::io::Read`, so the reader is hidden in here.
#[verifier::external_body]
pub struct OpenEntry<'z, 'a> {
    reader: Reader<BufReader<ZipFile<'z, Cursor<&'a [u8]>>>>,
}

/// The name of a file that is open.
pub uninterp spec fn opened_name(file: OpenEntry) -> Seq<char>;

/// The events that have not been read of a file that is open, up to and with the end of the file
/// or the first error.
pub uninterp spec fn pending(file: OpenEntry) -> Seq<Option<EventView>>;

/// The file that an archive names by some bytes.
pub open spec fn entry_with_key(es: Seq<EntryView>, key: Seq<u8>) -> Option<EntryView>
    decreases es.len(),
{
    if es.len() == 0 {
        None
    } else if es.last().key == key {
        Some(es.last())
    } else {
        entry_with_key(es.drop_last(), key)
    }
}

/// `ZipArchive::new` on bytes in memory. The files are `archive_entries` of the bytes.
#[verifier::external_body]
pub(crate) fn open_archive<'a>(bytes: &'a [u8]) -> (r: Result<
    ZipArchive<Cursor<&'a [u8]>>,
    ZipError,
>)
    ensures
        match r {
            Ok(zip) => archive_entries(bytes@) == Some(entries(zip)),
            Err(_) => archive_entries(bytes@) is None,
        },
{
    ZipArchive::new(Cursor::new(bytes))
}

/// `ZipArchive::len`: how many files the archive has.
#[verifier::external_body]
pub(crate) fn entry_count<'a>(zip: &ZipArchive<Cursor<&'a [u8]>>) -> (r: usize)
    ensures
        r == entries(*zip).len(),
{
    zip.len()
}

/// `ZipArchive::by_index` opens a file, and `Reader::from_reader` reads it through a buffer.
/// Nothing of the file has been read yet, and every file has at least one event, its end or an
/// error. To read it changes nothing of the archive.
#[verifier::external_body]
pub(crate) fn open_entry<'z, 'a>(zip: &'z mut ZipArchive<Cursor<&'a [u8]>>, index: usize) -> (r:
    Result<OpenEntry<'z, 'a>, ZipError>)
    requires
        index < entries(*old(zip)).len(),
    ensures
        entries(*final(zip)) == entries(*old(zip)),
        match r {
            Ok(file) => file.is_fresh(entries(*old(zip))[index as int]),
            Err(_) => !entries(*old(zip))[index as int].opens,
        },
{
    let file = zip.by_index(index)?;
    Ok(OpenEntry { reader: Reader::from_reader(BufReader::new(file)) })
}

/// `ZipArchive::by_name` opens the file that the archive names by the UTF-8 bytes of a name, and
/// `Reader::from_reader` reads it through a buffer, as in `open_entry`. An archive names no two
/// files by the same bytes.
#[verifier::external_body]
pub(crate) fn open_named<'z, 'a>(zip: &'z mut ZipArchive<Cursor<&'a [u8]>>, name: &str) -> (r:
    Result<OpenEntry<'z, 'a>, ZipError>)
    ensures
        entries(*final(zip)) == entries(*old(zip)),
        match r {
            Ok(file) => entry_with_key(entries(*old(zip)), encode_utf8(name@)) matches Some(e)
                && file.is_fresh(e),
            Err(_) => entry_with_key(entries(*old(zip)), encode_utf8(name@)) matches Some(e)
                ==> !e.opens,
        },
{
    let file = zip.by_name(name)?;
    Ok(OpenEntry { reader: Reader::from_reader(BufReader::new(file)) })
}

impl<'z, 'a> OpenEntry<'z, 'a> {
    /// Whether this is a file of an archive of which nothing has been read yet.
    pub open spec fn is_fresh(self, entry: EntryView) -> bool {
        &&& entry.opens
        &&& opened_name(self) == entry.name
        &&& pending(self) == entry.events
        &&& entry.events.len() > 0
    }

    /// `ZipFile::name`: the name of the file.
    #[verifier::external_body]
    pub(crate) fn name(&self) -> (r: String)
        ensures
            r@ == opened_name(*self),
    {
        self.reader.get_ref().get_ref().name().to_string()
    }

    /// `Reader::read_event_into` gives the next event. There are more events behind one that is
    /// neither the end of the text nor an error.
    #[verifier::external_body]
    pub(crate) fn next_event(&mut self) -> (r: Result<XmlEvent, quick_xml::Error>)
        requires
            pending(*old(self)).len() > 0,
        ensures
            event_view(r) == pending(*old(self))[0],
            pending(*final(self)) == pending(*old(self)).skip(1),
            r matches Ok(e) && e@ != EventView::End ==> pending(*final(self)).len() > 0,
    {
        let name = |n: LocalName| n.as_ref().to_vec();
        let attribute =
            |a: RawAttribute| Attribute { name: name(a.key.local_name()), value: a.value.into() };
        let open = |e: BytesStart, empty| XmlEvent::Open { empty, element: Element {
            name: name(e.local_name()),
            attributes: e.attributes().map(|a| a.map(attribute)).collect(),
        } };
        Ok(match self.reader.read_event_into(&mut Vec::new())? {
            Event::Start(e) => open(e, false),
            Event::Empty(e) => open(e, true),
            Event::End(e) => XmlEvent::Close { name: name(e.local_name()) },
            Event::Eof => XmlEvent::End,
            _ => XmlEvent::Other,
        })
    }
}

} // verus!

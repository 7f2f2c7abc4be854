//! The XML event stream, read through `quick_xml`.
//!
//! The reader tokenizes an in-memory document and nothing else, so the
//! events are a function of the document and of how many have been read.
//! That stream is named by `xml_event_at`; the reader carries the document
//! and the call count as ghost state, and the one trusted reading function
//! ties each returned event to the stream. Everything that interprets the
//! events is verified.

use vstd::prelude::*;

verus! {

#[verifier::external_type_specification]
#[verifier::external_body]
#[verifier::reject_recursive_types(R)]
pub struct ExReader<R>(quick_xml::Reader<R>);

#[verifier::external_type_specification]
#[verifier::external_body]
pub struct ExBytesStart<'a>(quick_xml::events::BytesStart<'a>);

/// One event of the document as plain values: element name and attribute
/// key/value pairs. `Fail` stands for malformed XML, a malformed attribute
/// list included.
pub enum XmlEvent {
    Start(String, Vec<(String, String)>),
    Empty(String, Vec<(String, String)>),
    End(String),
    Other,
    Eof,
    Fail,
}

/// The event that a reader over document `s` returns on its `i`-th read:
/// `quick_xml`'s tokenization is a pure function of the in-memory slice, so
/// the pair determines the event. Only `next_event` applies this name;
/// nothing else is assumed of it.
pub uninterp spec fn xml_event_at(s: Seq<char>, i: int) -> XmlEvent;

/// A reader over a document, carrying as ghost state the document it was
/// made from and how many events have been read off it. The ghost fields
/// are private: only `reader_from_str` sets them and only `next_event`
/// steps them, so they always mean what they say.
pub struct XmlReader<'a> {
    inner: quick_xml::Reader<&'a [u8]>,
    doc: Ghost<Seq<char>>,
    pos: Ghost<int>,
}

impl<'a> XmlReader<'a> {
    /// The document this reader was made from.
    pub closed spec fn doc(self) -> Seq<char> {
        self.doc@
    }

    /// How many events have been read off this reader.
    pub closed spec fn pos(self) -> int {
        self.pos@
    }
}

/// Relies on `quick_xml::Reader::from_str`: a reader over the document.
#[verifier::external_body]
fn raw_from_str<'a>(s: &'a str) -> (r: quick_xml::Reader<&'a [u8]>) {
    quick_xml::Reader::from_str(s)
}

/// A reader over the document, positioned before its first event.
pub(crate) fn reader_from_str<'a>(s: &'a str) -> (r: XmlReader<'a>)
    ensures
        r.doc() == s@,
        r.pos() == 0,
{
    XmlReader { inner: raw_from_str(s), doc: Ghost(s@), pos: Ghost(0int) }
}

/// Relies on `quick_xml::Reader::read_event` and the `name` and
/// `attributes` accessors of its payloads: the next event of the document
/// as plain values. Reading is pure tokenization of the slice the reader
/// was made from, so the `i`-th call returns exactly `xml_event_at(doc, i)`;
/// reader errors and malformed attribute lists fold into `Fail`.
#[verifier::external_body]
pub(crate) fn next_event<'a>(r: &mut XmlReader<'a>) -> (ev: XmlEvent)
    ensures
        final (r).doc() == old(r).doc(),
        final (r).pos() == old(r).pos() + 1,
        ev == xml_event_at(old(r).doc(), old(r).pos()),
{
    match r.inner.read_event() {
        Ok(quick_xml::events::Event::Start(e)) => plain_element(true, e),
        Ok(quick_xml::events::Event::Empty(e)) => plain_element(false, e),
        Ok(quick_xml::events::Event::End(e)) => XmlEvent::End(e.name().0.to_owned()),
        Ok(quick_xml::events::Event::Eof) => XmlEvent::Eof,
        Ok(_) => XmlEvent::Other,
        Err(_) => XmlEvent::Fail,
    }
}

/// Relies on `quick_xml::events::BytesStart::name` and `::attributes`: the
/// element's tag name and its attribute pairs in document order as plain
/// strings, or `Fail` when an attribute is malformed. Conversion only; it
/// carries no contract of its own and is applied only by `next_event`.
#[verifier::external_body]
fn plain_element<'a>(start: bool, e: quick_xml::events::BytesStart<'a>) -> XmlEvent {
    let n = e.name().0.to_owned();
    let at = e.attributes().map(
        |a| a.ok().map(|a| (a.key.0.to_owned(), a.value.into_owned())),
    ).collect::<Option<Vec<(String, String)>>>();
    match at {
        Some(at) => if start { XmlEvent::Start(n, at) } else { XmlEvent::Empty(n, at) },
        None => XmlEvent::Fail,
    }
}

/// Relies on `quick_xml::Reader::buffer_position`: how many bytes of the
/// document the reader has consumed, for error reports.
#[verifier::external_body]
pub(crate) fn reader_position<'a>(r: &XmlReader<'a>) -> (p: u64) {
    r.inner.buffer_position()
}

} // verus!

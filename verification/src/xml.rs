use vstd::prelude::*;
use vstd::utf8::decode_utf8;
use vstd::utf8::valid_utf8;
use quick_xml::events::Event;
use quick_xml::Reader;
use crate::utils::views;

verus! {

/// One attribute of an element: its name and its raw value, as bytes.
#[derive(Debug)]
pub struct Attribute {
    pub key: Vec<u8>,
    pub value: Vec<u8>,
}

/// What an `Attribute` stands for.
pub struct AttributeView {
    pub key: Seq<u8>,
    pub value: Seq<u8>,
}

impl View for Attribute {
    type V = AttributeView;

    open spec fn view(&self) -> AttributeView {
        AttributeView { key: self.key@, value: self.value@ }
    }
}

/// The attributes of an element in document order. `None` stands where the
/// markup of an attribute is not well formed.
pub open spec fn attribute_views(attributes: Seq<Option<Attribute>>) -> Seq<Option<AttributeView>> {
    attributes.map_values(
        |attribute: Option<Attribute>|
            match attribute {
                Some(a) => Some(a@),
                None => None,
            },
    )
}

/// The opening tag of an element: its name, its attributes, and whether the
/// tag closes the element at once, leaving it without content.
#[derive(Debug)]
pub struct Element {
    pub name: Vec<u8>,
    pub attributes: Vec<Option<Attribute>>,
    pub empty: bool,
}

/// What an `Element` stands for.
pub struct ElementView {
    pub name: Seq<u8>,
    pub attributes: Seq<Option<AttributeView>>,
    pub empty: bool,
}

impl View for Element {
    type V = ElementView;

    open spec fn view(&self) -> ElementView {
        ElementView {
            name: self.name@,
            attributes: attribute_views(self.attributes@),
            empty: self.empty,
        }
    }
}

/// What a reader finds next in a document.
#[derive(Debug)]
pub enum XmlEvent {
    /// The opening tag of an element.
    Element(Element),
    /// The closing tag of an element, with the element's name.
    End(Vec<u8>),
    /// Anything else: text, a comment, a declaration.
    Other,
    /// The end of the document.
    Eof,
    /// Markup that is not well formed.
    Malformed,
}

/// What an `XmlEvent` stands for.
pub enum XmlEventView {
    Element(ElementView),
    End(Seq<u8>),
    Other,
    Eof,
    Malformed,
}

impl View for XmlEvent {
    type V = XmlEventView;

    open spec fn view(&self) -> XmlEventView {
        match self {
            XmlEvent::Element(element) => XmlEventView::Element(element@),
            XmlEvent::End(name) => XmlEventView::End(name@),
            XmlEvent::Other => XmlEventView::Other,
            XmlEvent::Eof => XmlEventView::Eof,
            XmlEvent::Malformed => XmlEventView::Malformed,
        }
    }
}

impl XmlEventView {
    /// Whether reading stops at this event.
    pub open spec fn is_last(self) -> bool {
        self is Eof || self is Malformed
    }
}

/// Whether a run of events is what one reading of a document gives: it ends
/// with the end of the document or with malformed markup, and holds neither
/// before that.
pub open spec fn is_event_stream(events: Seq<XmlEventView>) -> bool {
    &&& events.len() > 0
    &&& events.last().is_last()
    &&& forall|i: int| 0 <= i < events.len() - 1 ==> !(#[trigger] events[i]).is_last()
}

/// What is left of a reading after an event at which reading does not stop
/// is a reading again.
pub proof fn lemma_rest_is_event_stream(events: Seq<XmlEventView>)
    requires
        is_event_stream(events),
        !events[0].is_last(),
    ensures
        is_event_stream(events.drop_first()),
{
    let left = events.drop_first();
    assert(left.last() == events.last());
    assert forall|i: int| 0 <= i < left.len() - 1 implies !(#[trigger] left[i]).is_last() by {
        assert(left[i] == events[i + 1]);
    }
}

/// The reader of the crate quick-xml, of which nothing is known but what
/// `open_reader` and `next_event` say.
#[verifier::external_type_specification]
#[verifier::external_body]
#[verifier::reject_recursive_types(R)]
pub struct ExReader<R>(Reader<R>);

/// The events that a reader with default settings finds in a document, up to
/// and including the first that is the end of the document or malformed markup.
pub uninterp spec fn xml_events(document: Seq<u8>) -> Seq<XmlEventView>;

/// The events that a reader has yet to give, up to and including the first
/// that is the end of the document or malformed markup.
pub uninterp spec fn pending(reader: Reader<&[u8]>) -> Seq<XmlEventView>;

/// Calls `Reader::from_reader` of the crate quick-xml on a byte slice.
/// Claimed: what the new reader has yet to give is a function of the
/// document alone, which the contract only names, and it is finite: it ends
/// with the end of the document or with the first malformed markup.
#[verifier::external_body]
pub(crate) fn open_reader<'a>(document: &'a [u8]) -> (reader: Reader<&'a [u8]>)
    ensures
        pending(reader) == xml_events(document@),
        is_event_stream(pending(reader)),
{
    Reader::from_reader(document)
}

/// Calls `Reader::read_event` of the crate quick-xml, for an opening tag
/// `BytesStart::name` and `BytesStart::attributes`, whose items it copies,
/// and for a closing tag `BytesEnd::name`.
/// Claimed: the event is the first that the reader had yet to give, and
/// unless reading stops there, the reader has the others left.
#[verifier::external_body]
pub(crate) fn next_event(reader: &mut Reader<&[u8]>) -> (event: XmlEvent)
    ensures
        event@ == pending(*old(reader))[0],
        !event@.is_last() ==> pending(*final(reader)) == pending(*old(reader)).drop_first(),
{
    let (tag, empty) = match reader.read_event() {
        Ok(Event::Start(tag)) => (tag, false),
        Ok(Event::Empty(tag)) => (tag, true),
        Ok(Event::End(tag)) => return XmlEvent::End(tag.name().0.to_vec()),
        Ok(Event::Eof) => return XmlEvent::Eof,
        Ok(_) => return XmlEvent::Other,
        Err(_) => return XmlEvent::Malformed,
    };
    let attributes = tag.attributes().map(
        |a| a.ok().map(|a| Attribute { key: a.key.0.to_vec(), value: a.value.to_vec() }),
    ).collect();
    XmlEvent::Element(Element { name: tag.name().0.to_vec(), attributes, empty })
}

/// Calls `String::from_utf8` on a copy of `bytes`. Claimed: the text is
/// there exactly when the bytes are UTF-8, and it is then what they encode.
#[verifier::external_body]
pub(crate) fn text_of(bytes: &[u8]) -> (text: Option<String>)
    ensures
        text is Some == valid_utf8(bytes@),
        text is Some ==> text.unwrap()@ == decode_utf8(bytes@),
{
    String::from_utf8(bytes.to_vec()).ok()
}

/// Reads a document to its end and keeps what it found.
pub fn read_events(document: &[u8]) -> (events: Vec<XmlEvent>)
    ensures
        views(events@) == xml_events(document@),
{
    let mut reader = open_reader(document);
    let mut events: Vec<XmlEvent> = Vec::new();
    assert(views(events@) =~= Seq::<XmlEventView>::empty());
    loop
        invariant_except_break
            is_event_stream(pending(reader)),
            xml_events(document@) == views(events@) + pending(reader),
        ensures
            views(events@) == xml_events(document@),
        decreases pending(reader).len(),
    {
        let ghost before = views(events@);
        let ghost rest = pending(reader);
        let event = next_event(&mut reader);
        let last = match event {
            XmlEvent::Eof => true,
            XmlEvent::Malformed => true,
            _ => false,
        };
        events.push(event);
        proof {
            assert(views(events@) =~= before.push(rest[0]));
            if last {
                assert(rest.len() == 1);
                assert(before + rest =~= before.push(rest[0]));
            } else {
                assert(before + rest =~= before.push(rest[0]) + rest.drop_first());
                lemma_rest_is_event_stream(rest);
            }
        }
        if last {
            break;
        }
    }
    events
}

} // verus!

//! XML events: what the reader delivers for a document and what the writer
//! makes of them.

use crate::error::{Failure, SitemapError};
use crate::text::text_of;
use vstd::prelude::*;
use xml::reader::XmlEvent as ReaderEvent;
use xml::writer::XmlEvent as WriterEvent;

verus! {

/// A namespace declared on an element; the empty prefix declares the default
/// namespace.
#[derive(Debug, Clone, PartialEq, Eq)]
pub struct XmlNamespace {
    pub prefix: String,
    pub uri: String,
}

/// An attribute of an element, by its local name.
#[derive(Debug, Clone, PartialEq, Eq)]
pub struct XmlAttribute {
    pub name: String,
    pub value: String,
}

/// One step of an XML document.
#[derive(Debug, Clone, PartialEq, Eq)]
pub enum XmlEvent {
    /// The XML declaration, version 1.0. The reader never delivers it.
    StartDocument { encoding: String },
    /// The start of an element. `namespace` is the namespace that the name
    /// belongs to. `namespaces` are the declarations to write on the element;
    /// the reader leaves them empty.
    StartElement {
        name: String,
        prefix: Option<String>,
        namespace: Option<String>,
        namespaces: Vec<XmlNamespace>,
        attributes: Vec<XmlAttribute>,
    },
    /// The end of the element that was started last.
    EndElement { name: String },
    /// Text, without the white space around it.
    Characters(String),
    /// The end of what the reader delivers for a well-formed document.
    EndDocument,
    /// An event of a kind that the library has no use for.
    Unexpected,
    /// The end of what the reader delivers for a document that is not well
    /// formed, with the reader's message.
    Failure(String),
}

/// An event as contracts see it. Namespaces and attributes are pairs: prefix
/// and URI, name and value.
pub enum XmlEventView {
    StartDocument { encoding: Seq<char> },
    StartElement {
        name: Seq<char>,
        prefix: Option<Seq<char>>,
        namespace: Option<Seq<char>>,
        namespaces: Seq<(Seq<char>, Seq<char>)>,
        attributes: Seq<(Seq<char>, Seq<char>)>,
    },
    EndElement { name: Seq<char> },
    Characters(Seq<char>),
    EndDocument,
    Unexpected,
    Failure(Seq<char>),
}

impl View for XmlNamespace {
    type V = (Seq<char>, Seq<char>);

    open spec fn view(&self) -> (Seq<char>, Seq<char>) {
        (self.prefix@, self.uri@)
    }
}

impl View for XmlAttribute {
    type V = (Seq<char>, Seq<char>);

    open spec fn view(&self) -> (Seq<char>, Seq<char>) {
        (self.name@, self.value@)
    }
}

impl View for XmlEvent {
    type V = XmlEventView;

    open spec fn view(&self) -> XmlEventView {
        match self {
            XmlEvent::StartDocument { encoding } => XmlEventView::StartDocument {
                encoding: encoding@,
            },
            XmlEvent::StartElement {
                name,
                prefix,
                namespace,
                namespaces,
                attributes,
            } => XmlEventView::StartElement {
                name: name@,
                prefix: text_of(*prefix),
                namespace: text_of(*namespace),
                namespaces: Seq::new(namespaces@.len(), |i: int| namespaces@[i]@),
                attributes: Seq::new(attributes@.len(), |i: int| attributes@[i]@),
            },
            XmlEvent::EndElement { name } => XmlEventView::EndElement { name: name@ },
            XmlEvent::Characters(text) => XmlEventView::Characters(text@),
            XmlEvent::EndDocument => XmlEventView::EndDocument,
            XmlEvent::Unexpected => XmlEventView::Unexpected,
            XmlEvent::Failure(reason) => XmlEventView::Failure(reason@),
        }
    }
}

/// The views of a sequence of events.
pub open spec fn event_views(events: Seq<XmlEvent>) -> Seq<XmlEventView> {
    Seq::new(events.len(), |i: int| events[i]@)
}

/// The event is the last that a reader delivers.
pub open spec fn is_final(event: XmlEventView) -> bool {
    event is EndDocument || event is Failure
}

/// The events end with a final event, and hold no other.
pub open spec fn is_stream(events: Seq<XmlEventView>) -> bool {
    &&& events.len() > 0
    &&& is_final(events.last())
    &&& forall|i: int| 0 <= i < events.len() - 1 ==> !is_final(#[trigger] events[i])
}

/// The event can be handed to a writer.
pub open spec fn is_writable(event: XmlEventView) -> bool {
    event is StartDocument || event is StartElement || event is EndElement || event is Characters
}

/// How many elements stand open after the events: the starts less the ends.
pub open spec fn open_elements(events: Seq<XmlEventView>) -> int
    decreases events.len(),
{
    if events.len() == 0 {
        0
    } else {
        open_elements(events.drop_last()) + match events.last() {
            XmlEventView::StartElement { .. } => 1int,
            XmlEventView::EndElement { .. } => -1int,
            _ => 0int,
        }
    }
}

/// A writer that has taken `written` takes `event`: the XML declaration
/// before anything else, the start of an element and a text always, and the
/// end of an element where one is open.
pub open spec fn is_accepted(written: Seq<XmlEventView>, event: XmlEventView) -> bool {
    match event {
        XmlEventView::StartDocument { .. } => written.len() == 0,
        XmlEventView::StartElement { .. } => true,
        XmlEventView::Characters(_) => true,
        XmlEventView::EndElement { .. } => open_elements(written) > 0,
        _ => false,
    }
}

/// A fresh writer takes the events one after the other.
pub open spec fn all_accepted(events: Seq<XmlEventView>) -> bool {
    forall|i: int| 0 <= i < events.len() ==> is_accepted(events.take(i), #[trigger] events[i])
}

/// How many elements stand open after a writer with `open` open elements,
/// which has taken something or not, has taken the events; `None` where it
/// refuses one of them.
pub open spec fn accepted_from(open: int, started: bool, events: Seq<XmlEventView>) -> Option<int>
    decreases events.len(),
{
    if events.len() == 0 {
        Some(open)
    } else {
        match events[0] {
            XmlEventView::StartDocument { .. } => if started {
                None
            } else {
                accepted_from(open, true, events.skip(1))
            },
            XmlEventView::StartElement { .. } => accepted_from(open + 1, true, events.skip(1)),
            XmlEventView::Characters(_) => accepted_from(open, true, events.skip(1)),
            XmlEventView::EndElement { .. } => if open > 0 {
                accepted_from(open - 1, true, events.skip(1))
            } else {
                None
            },
            _ => None,
        }
    }
}

/// The events that the yaserde reader delivers for a document, up to and with
/// its final event.
pub uninterp spec fn xml_events(bytes: Seq<u8>) -> Seq<XmlEventView>;

/// The document that the yaserde writer makes of a sequence of events, with
/// or without indentation.
pub uninterp spec fn xml_text(indent: bool, events: Seq<XmlEventView>) -> Seq<u8>;

/// A `yaserde::de::Deserializer` over the bytes of a document. Nothing is
/// known of what it holds but what `pending_events` names.
#[verifier::external_body]
pub struct EventReader<'a> {
    inner: yaserde::de::Deserializer<&'a [u8]>,
}

/// A `yaserde::ser::Serializer` that writes into memory. Nothing is known of
/// what it holds but what `written_events` and `indents` name.
#[verifier::external_body]
pub struct EventWriter {
    inner: yaserde::ser::Serializer<Vec<u8>>,
}

/// The events that a reader has yet to deliver, up to and with its final event.
pub uninterp spec fn pending_events(reader: EventReader) -> Seq<XmlEventView>;

/// The events that a writer has taken.
pub uninterp spec fn written_events(writer: EventWriter) -> Seq<XmlEventView>;

/// Whether a writer indents.
pub uninterp spec fn indents(writer: EventWriter) -> bool;

/// Calls `yaserde::de::Deserializer::new_from_reader` on the bytes. The
/// contract names what the reader will deliver, and claims that it ends with
/// an `EndDocument` or an error and holds neither before: xml-rs documents
/// that its reader repeats such an event from then on.
#[verifier::external_body]
fn open_reader<'a>(bytes: &'a [u8]) -> (reader: EventReader<'a>)
    ensures
        pending_events(reader) == xml_events(bytes@),
        is_stream(pending_events(reader)),
{
    EventReader { inner: yaserde::de::Deserializer::new_from_reader(bytes) }
}

/// Calls `yaserde::de::Deserializer::inner_next`, which skips the XML
/// declaration, processing instructions and comments, and turns the event
/// into one of the library. The contract says that this is the first of the
/// pending events, and that the others stay pending.
#[verifier::external_body]
fn next_event(reader: &mut EventReader) -> (event: XmlEvent)
    ensures
        pending_events(*old(reader)).len() > 0 ==> event@ == pending_events(*old(reader))[0]
            && pending_events(*final(reader)) == pending_events(*old(reader)).skip(1),
{
    match reader.inner.inner_next() {
        Ok(ReaderEvent::StartElement { name, attributes, .. }) => XmlEvent::StartElement {
            name: name.local_name, prefix: name.prefix, namespace: name.namespace, namespaces: Vec::new(),
            attributes: attributes.into_iter().map(|a| XmlAttribute { name: a.name.local_name, value: a.value }).collect(),
        },
        Ok(ReaderEvent::EndElement { name }) => XmlEvent::EndElement { name: name.local_name },
        Ok(ReaderEvent::Characters(text)) => XmlEvent::Characters(text),
        Ok(ReaderEvent::EndDocument) => XmlEvent::EndDocument,
        Ok(_) => XmlEvent::Unexpected,
        Err(reason) => XmlEvent::Failure(reason),
    }
}

/// The events of a document, up to and with the final event.
pub fn read_events(bytes: &[u8]) -> (events: Vec<XmlEvent>)
    ensures
        event_views(events@) == xml_events(bytes@),
{
    let mut reader = open_reader(bytes);
    let mut events: Vec<XmlEvent> = Vec::new();
    let mut done = false;
    while !done
        invariant
            !done ==> is_stream(pending_events(reader)),
            !done ==> event_views(events@) + pending_events(reader) == xml_events(bytes@),
            done ==> event_views(events@) == xml_events(bytes@),
        decreases pending_events(reader).len() + if done { 0int } else { 1int },
    {
        let ghost pending = pending_events(reader);
        let ghost before = event_views(events@);
        let event = next_event(&mut reader);
        done = match &event {
            XmlEvent::EndDocument => true,
            XmlEvent::Failure(_) => true,
            _ => false,
        };
        events.push(event);
        proof {
            assert(event_views(events@) =~= before.push(pending[0]));
            assert(before.push(pending[0]) + pending.skip(1) =~= before + pending);
            if done {
                assert(pending.len() == 1);
                assert(pending.skip(1) =~= Seq::<XmlEventView>::empty());
                assert(before.push(pending[0]) =~= before + pending);
            } else {
                assert(pending.skip(1).last() == pending.last());
                assert forall|i: int| 0 <= i < pending.skip(1).len() - 1 implies !is_final(
                    #[trigger] pending.skip(1)[i],
                ) by {
                    assert(pending.skip(1)[i] == pending[i + 1]);
                }
            }
        }
    }
    events
}

/// Calls `yaserde::ser::Serializer::new_from_writer` on an empty buffer,
/// with `perform_indent` as given and otherwise yaserde's default
/// configuration. The writer has taken nothing.
#[verifier::external_body]
fn open_writer(indent: bool) -> (writer: EventWriter)
    ensures
        written_events(writer) == Seq::<XmlEventView>::empty(),
        indents(writer) == indent,
{
    let config = yaserde::ser::Config { perform_indent: indent, ..Default::default() };
    EventWriter { inner: yaserde::ser::Serializer::new_from_writer(Vec::new(), &config) }
}

/// Calls `yaserde::ser::Serializer::write` with the XML declaration of
/// version 1.0 that names the encoding. The emitter of xml-rs refuses a
/// declaration once the document has started, which the first event that it
/// takes brings about, and takes it else. What it refuses leaves it as it was.
#[verifier::external_body]
fn write_declaration(writer: &mut EventWriter, encoding: &str) -> (taken: bool)
    ensures
        taken <==> written_events(*old(writer)).len() == 0,
        taken ==> written_events(*final(writer)) == written_events(*old(writer)).push(
            XmlEventView::StartDocument { encoding: encoding@ },
        ),
        !taken ==> written_events(*final(writer)) == written_events(*old(writer)),
        indents(*final(writer)) == indents(*old(writer)),
{
    writer.inner.write(WriterEvent::StartDocument { version: xml::common::XmlVersion::Version10, encoding: Some(encoding), standalone: None }).is_ok()
}

/// Calls `yaserde::ser::Serializer::write` with the start of an element, a
/// text or the end of an element, built by the constructors of
/// `xml::writer::XmlEvent`. The emitter of xml-rs takes a start and a text
/// whenever its sink takes the bytes, which memory does, and takes an end
/// where an element is open. What it refuses leaves it as it was.
#[verifier::external_body]
fn write_event(writer: &mut EventWriter, event: &XmlEvent) -> (taken: bool)
    requires
        event@ is StartElement || event@ is Characters || event@ is EndElement,
    ensures
        taken <==> is_accepted(written_events(*old(writer)), event@),
        taken ==> written_events(*final(writer)) == written_events(*old(writer)).push(event@),
        !taken ==> written_events(*final(writer)) == written_events(*old(writer)),
        indents(*final(writer)) == indents(*old(writer)),
{
    match event {
        XmlEvent::StartElement { name, prefix, namespaces, attributes, .. } => {
            let mut start = WriterEvent::start_element(xml::name::Name { local_name: name, namespace: None, prefix: prefix.as_deref() });
            for n in namespaces { start = start.ns(&n.prefix, &n.uri); }
            for a in attributes { start = start.attr(a.name.as_str(), &a.value); }
            writer.inner.write(start).is_ok()
        },
        XmlEvent::Characters(text) => writer.inner.write(WriterEvent::characters(text)).is_ok(),
        _ => writer.inner.write(WriterEvent::end_element()).is_ok(),
    }
}

/// Calls `yaserde::ser::Serializer::into_inner`: the bytes written. The
/// contract only gives them their name.
#[verifier::external_body]
fn finish_writer(writer: EventWriter) -> (bytes: Vec<u8>)
    ensures
        bytes@ == xml_text(indents(writer), written_events(writer)),
{
    writer.inner.into_inner()
}

/// Why events are refused of which the writer does not take one.
pub const REFUSED: &'static str = "the writer refuses an event";

/// Whether the event can be handed to a writer.
pub fn can_write(event: &XmlEvent) -> (r: bool)
    ensures
        r == is_writable(event@),
{
    match event {
        XmlEvent::StartDocument { .. } => true,
        XmlEvent::StartElement { .. } => true,
        XmlEvent::EndElement { .. } => true,
        XmlEvent::Characters(_) => true,
        _ => false,
    }
}

/// The document that the writer makes of the events. Fails with
/// `XmlSyntaxError` and `REFUSED` at the first event that the writer does
/// not take.
pub fn write_events(events: &Vec<XmlEvent>, indent: bool) -> (r: Result<Vec<u8>, SitemapError>)
    ensures
        r is Ok <==> all_accepted(event_views(events@)),
        match r {
            Ok(bytes) => bytes@ == xml_text(indent, event_views(events@)),
            Err(e) => e@ == Failure::XmlSyntaxError(REFUSED@),
        },
{
    let ghost all = event_views(events@);
    let mut writer = open_writer(indent);
    let mut i: usize = 0;
    assert(all.take(0) =~= Seq::empty());
    while i < events.len()
        invariant
            i <= events.len(),
            all == event_views(events@),
            indents(writer) == indent,
            written_events(writer) == all.take(i as int),
            forall|j: int| 0 <= j < i ==> is_accepted(all.take(j), #[trigger] all[j]),
        decreases events.len() - i,
    {
        assert(all[i as int] == events[i as int]@);
        if !can_write(&events[i]) {
            assert(!is_accepted(all.take(i as int), all[i as int]));
            return Err(SitemapError::XmlSyntaxError { reason: REFUSED.to_owned() });
        }
        let taken = match &events[i] {
            XmlEvent::StartDocument { encoding } => write_declaration(&mut writer, encoding.as_str()),
            _ => write_event(&mut writer, &events[i]),
        };
        if !taken {
            assert(!is_accepted(all.take(i as int), all[i as int]));
            return Err(SitemapError::XmlSyntaxError { reason: REFUSED.to_owned() });
        }
        proof {
            assert(all.take(i as int).push(all[i as int]) =~= all.take(i + 1));
        }
        i += 1;
    }
    proof {
        assert(all.take(i as int) =~= all);
    }
    Ok(finish_writer(writer))
}

/// Events that are accepted from a state of the writer are accepted one by
/// one behind what the writer has taken.
pub proof fn lemma_accepted_from(written: Seq<XmlEventView>, events: Seq<XmlEventView>)
    requires
        accepted_from(open_elements(written), written.len() > 0, events) is Some,
    ensures
        forall|i: int|
            0 <= i < events.len() ==> is_accepted(written + events.take(i), #[trigger] events[i]),
    decreases events.len(),
{
    if events.len() > 0 {
        let next = written.push(events[0]);
        let rest = events.skip(1);
        assert(next.drop_last() =~= written);
        assert(written + events.take(0) =~= written);
        lemma_accepted_from(next, rest);
        assert forall|i: int| 0 <= i < events.len() implies is_accepted(
            written + events.take(i),
            #[trigger] events[i],
        ) by {
            if i > 0 {
                assert(written + events.take(i) =~= next + rest.take(i - 1));
                assert(events[i] == rest[i - 1]);
            }
        }
    }
}

/// Events that are accepted from the state of a fresh writer are all accepted.
pub proof fn lemma_all_accepted(events: Seq<XmlEventView>)
    requires
        accepted_from(0, false, events) is Some,
    ensures
        all_accepted(events),
{
    let nothing = Seq::<XmlEventView>::empty();
    lemma_accepted_from(nothing, events);
    assert forall|i: int| 0 <= i < events.len() implies is_accepted(
        events.take(i),
        #[trigger] events[i],
    ) by {
        assert(nothing + events.take(i) =~= events.take(i));
    }
}

/// Accepting a sequence of events is accepting its front part and then the rest.
pub proof fn lemma_accepted_concat(
    open: int,
    started: bool,
    a: Seq<XmlEventView>,
    b: Seq<XmlEventView>,
)
    ensures
        accepted_from(open, started, a + b) == match accepted_from(open, started, a) {
            Some(then) => accepted_from(then, started || a.len() > 0, b),
            None => None,
        },
    decreases a.len(),
{
    if a.len() == 0 {
        assert(a + b =~= b);
    } else {
        assert((a + b)[0] == a[0]);
        assert((a + b).skip(1) =~= a.skip(1) + b);
        match a[0] {
            XmlEventView::StartDocument { .. } => {
                lemma_accepted_concat(open, true, a.skip(1), b);
            },
            XmlEventView::StartElement { .. } => {
                lemma_accepted_concat(open + 1, true, a.skip(1), b);
            },
            XmlEventView::Characters(_) => {
                lemma_accepted_concat(open, true, a.skip(1), b);
            },
            XmlEventView::EndElement { .. } => {
                lemma_accepted_concat(open - 1, true, a.skip(1), b);
            },
            _ => {},
        }
    }
}

} // verus!

//! Reading back the events that were written for a sitemap.

use crate::codec::{
    decode, element_of, elements_of, encode, is_hash_meta, page_of, pages_of, recognized_hash,
};
use crate::error::Failure;
use crate::events::{
    event_views, read_events, write_events, xml_events, xml_text, XmlAttribute, XmlEvent,
    XmlEventView,
};
use crate::sitemap::{is_exact, is_exact_page, PageView, Sitemap};
use crate::text::{lemma_trim_identity, same_optional_text, trim};
use crate::timestamp::{is_timestamp, rfc3339_text};
use crate::web_url::is_canonical;
use crate::wire::{
    attribute_value, document_events, empty_page, meta_events, meta_of, meta_start, page_events,
    pages_events, plain_start, root_start, scan, scan_document, scan_step, text_element, MetaView,
    PageSerdeView, ScanView, DOCUMENT_ENCODING, HASH_META_NAME,
};
use vstd::prelude::*;

verus! {

/// A `url` element whose URL is in canonical form and whose timestamp has a text.
pub open spec fn is_exact_element(element: PageSerdeView) -> bool {
    &&& match element.url {
        Some(u) => is_canonical(u),
        None => true,
    }
    &&& match element.lastmod {
        Some(t) => is_timestamp(t),
        None => true,
    }
}

/// The names of the elements and attributes differ from each other.
proof fn lemma_names()
    ensures
        "loc"@ != "lastmod"@,
        "loc"@ != "meta"@,
        "lastmod"@ != "meta"@,
        "name"@ != "content"@,
{
    reveal_strlit("loc");
    reveal_strlit("lastmod");
    reveal_strlit("meta");
    reveal_strlit("name");
    reveal_strlit("content");
    assert("loc"@.len() == 3);
    assert("lastmod"@.len() == 7);
    assert("meta"@.len() == 4);
    assert("name"@.len() == 4);
    assert("content"@.len() == 7);
}

/// Reading a sequence of events is reading its front part and then the rest.
pub proof fn lemma_scan_concat(state: ScanView, a: Seq<XmlEventView>, b: Seq<XmlEventView>)
    ensures
        scan(state, a + b) == scan(scan(state, a), b),
    decreases a.len(),
{
    if a.len() == 0 {
        assert(a + b =~= b);
    } else {
        assert((a + b)[0] == a[0]);
        assert((a + b).skip(1) =~= a.skip(1) + b);
        lemma_scan_concat(scan_step(state, a[0]), a.skip(1), b);
    }
}

/// Reading three events is taking three steps.
proof fn lemma_scan_three(state: ScanView, events: Seq<XmlEventView>)
    requires
        events.len() == 3,
    ensures
        scan(state, events) == scan_step(
            scan_step(scan_step(state, events[0]), events[1]),
            events[2],
        ),
{
    let first = scan_step(state, events[0]);
    let second = scan_step(first, events[1]);
    let third = scan_step(second, events[2]);
    assert(events.skip(1)[0] == events[1]);
    assert(events.skip(1).skip(1)[0] == events[2]);
    assert(events.skip(1).skip(1).skip(1).len() == 0);
    assert(scan(third, events.skip(1).skip(1).skip(1)) == third);
    assert(scan(second, events.skip(1).skip(1)) == third);
    assert(scan(first, events.skip(1)) == third);
}

/// Reading one event is taking one step.
proof fn lemma_scan_one(state: ScanView, event: XmlEventView)
    ensures
        scan(state, seq![event]) == scan_step(state, event),
{
    let events = seq![event];
    assert(events.skip(1).len() == 0);
    assert(scan(scan_step(state, events[0]), events.skip(1)) == scan_step(state, events[0]));
}

/// The `meta` elements that were written are read back as they were.
proof fn lemma_scan_meta(
    pages: Seq<PageSerdeView>,
    page: PageSerdeView,
    meta: Seq<MetaView>,
    n: int,
)
    requires
        0 <= n <= meta.len(),
    ensures
        scan(ScanView::Page { pages, page }, meta_events(meta, n)) == (ScanView::Page {
            pages,
            page: PageSerdeView { meta: page.meta + meta.take(n), ..page },
        }),
    decreases n,
{
    let start = ScanView::Page { pages, page };
    if n == 0 {
        assert(page.meta + meta.take(0) =~= page.meta);
    } else {
        lemma_names();
        lemma_scan_meta(pages, page, meta, n - 1);
        let m = meta[n - 1];
        let front = meta_events(meta, n - 1);
        let tail = seq![meta_start(m), XmlEventView::EndElement { name: "meta"@ }];
        assert(meta_events(meta, n) =~= front + tail);
        lemma_scan_concat(start, front, tail);
        let before = PageSerdeView { meta: page.meta + meta.take(n - 1), ..page };
        let mid = ScanView::Page { pages, page: before };
        let attributes = meta_start(m)->StartElement_attributes;
        assert(attributes.last() == ("content"@, m.content));
        assert(attributes.drop_last().last() == ("name"@, m.name));
        assert(attribute_value(attributes, "content"@) == m.content);
        assert(attribute_value(attributes.drop_last(), "name"@) == m.name);
        assert(attribute_value(attributes, "name"@) == m.name);
        assert(meta_of(attributes) == m);
        let after = PageSerdeView { meta: before.meta.push(m), ..before };
        assert(scan_step(mid, tail[0]) == (ScanView::Skip { pages, page: Some(after), depth: 1 }));
        assert(tail.skip(1)[0] == tail[1]);
        assert(tail.skip(1).skip(1).len() == 0);
        assert(scan(ScanView::Page { pages, page: after }, tail.skip(1).skip(1)) == (
        ScanView::Page { pages, page: after }));
        assert(scan(scan_step(mid, tail[0]), tail.skip(1)) == (ScanView::Page {
            pages,
            page: after,
        }));
        assert(before.meta.push(m) =~= page.meta + meta.take(n));
    }
}

/// A `url` element that was written is read back as it was.
proof fn lemma_scan_page(pages: Seq<PageSerdeView>, element: PageSerdeView)
    requires
        is_exact_element(element),
    ensures
        scan(ScanView::Root { pages }, page_events(element)) == (ScanView::Root {
            pages: pages.push(element),
        }),
{
    lemma_names();
    let start = seq![plain_start("url"@)];
    let loc = match element.url {
        Some(u) => text_element("loc"@, u.text),
        None => Seq::empty(),
    };
    let lastmod = match element.lastmod {
        Some(t) => text_element("lastmod"@, rfc3339_text(t).unwrap()),
        None => Seq::empty(),
    };
    let meta = meta_events(element.meta, element.meta.len() as int);
    let end = seq![XmlEventView::EndElement { name: "url"@ }];
    let at_root = ScanView::Root { pages };
    let in_page = ScanView::Page { pages, page: empty_page() };
    lemma_scan_one(at_root, plain_start("url"@));
    let with_url = PageSerdeView { url: element.url, ..empty_page() };
    let after_loc = ScanView::Page { pages, page: with_url };
    match element.url {
        Some(u) => {
            lemma_scan_three(in_page, loc);
        },
        None => {},
    }
    assert(scan(in_page, loc) == after_loc);
    let with_lastmod = PageSerdeView { lastmod: element.lastmod, ..with_url };
    let after_lastmod = ScanView::Page { pages, page: with_lastmod };
    match element.lastmod {
        Some(t) => {
            lemma_scan_three(after_loc, lastmod);
        },
        None => {},
    }
    assert(scan(after_loc, lastmod) == after_lastmod);
    lemma_scan_meta(pages, with_lastmod, element.meta, element.meta.len() as int);
    assert(with_lastmod.meta + element.meta.take(element.meta.len() as int) =~= element.meta);
    let with_meta = PageSerdeView { meta: element.meta, ..with_lastmod };
    assert(with_meta == element);
    let after_meta = ScanView::Page { pages, page: with_meta };
    assert(scan(after_lastmod, meta) == after_meta);
    lemma_scan_one(after_meta, end[0]);
    assert(scan(after_meta, end) == (ScanView::Root { pages: pages.push(element) }));
    lemma_scan_concat(at_root, start, loc);
    lemma_scan_concat(at_root, start + loc, lastmod);
    lemma_scan_concat(at_root, start + loc + lastmod, meta);
    lemma_scan_concat(at_root, start + loc + lastmod + meta, end);
    assert(page_events(element) == start + loc + lastmod + meta + end);
}

/// The `url` elements that were written are read back as they were.
proof fn lemma_scan_pages(elements: Seq<PageSerdeView>, n: int)
    requires
        0 <= n <= elements.len(),
        forall|i: int| 0 <= i < elements.len() ==> is_exact_element(#[trigger] elements[i]),
    ensures
        scan(ScanView::Root { pages: Seq::empty() }, pages_events(elements, n)) == (ScanView::Root {
            pages: elements.take(n),
        }),
    decreases n,
{
    let start = ScanView::Root { pages: Seq::empty() };
    if n == 0 {
        assert(elements.take(0) =~= Seq::empty());
    } else {
        lemma_scan_pages(elements, n - 1);
        lemma_scan_concat(start, pages_events(elements, n - 1), page_events(elements[n - 1]));
        lemma_scan_page(elements.take(n - 1), elements[n - 1]);
        assert(elements.take(n - 1).push(elements[n - 1]) =~= elements.take(n));
    }
}

/// The `urlset` element that was written for `url` elements is read back as
/// those elements, where their URLs are canonical and their timestamps have
/// a text.
pub proof fn lemma_scan_document(elements: Seq<PageSerdeView>)
    requires
        forall|i: int| 0 <= i < elements.len() ==> is_exact_element(#[trigger] elements[i]),
    ensures
        scan_document(document_events(elements)) == Ok::<_, Failure>(elements),
{
    let declaration = seq![XmlEventView::StartDocument { encoding: DOCUMENT_ENCODING@ }];
    let root = seq![root_start()];
    let body = pages_events(elements, elements.len() as int);
    let end = seq![XmlEventView::EndElement { name: "urlset"@ }];
    let before_root = ScanView::Start;
    let after_pages = ScanView::Root { pages: elements };
    lemma_scan_one(before_root, declaration[0]);
    lemma_scan_one(before_root, root[0]);
    lemma_scan_pages(elements, elements.len() as int);
    assert(elements.take(elements.len() as int) =~= elements);
    lemma_scan_one(after_pages, end[0]);
    lemma_scan_concat(before_root, declaration, root);
    lemma_scan_concat(before_root, declaration + root, body);
    lemma_scan_concat(before_root, declaration + root + body, end);
    assert(document_events(elements) =~= declaration + root + body + end);
}

/// The name of the hash element is its own trimmed form.
proof fn lemma_hash_name_is_trimmed()
    ensures
        trim(HASH_META_NAME@) == HASH_META_NAME@,
{
    reveal_strlit("auto_sitemap_md5_hash");
    lemma_trim_identity(HASH_META_NAME@);
}

/// The element written for a page describes that page.
proof fn lemma_page_of_element(page: PageView)
    requires
        is_exact_page(page),
    ensures
        page_of(element_of(page)) == Ok::<_, Failure>(page),
        is_exact_element(element_of(page)),
{
    lemma_hash_name_is_trimmed();
    match page.md5_hash {
        Some(h) => {
            let meta = element_of(page).meta;
            assert(is_hash_meta(meta[0]));
        },
        None => {},
    }
}

/// The elements written for pages describe those pages.
proof fn lemma_pages_of_elements(pages: Seq<PageView>)
    requires
        forall|i: int| 0 <= i < pages.len() ==> is_exact_page(#[trigger] pages[i]),
    ensures
        pages_of(elements_of(pages)) == Ok::<_, Failure>(pages),
    decreases pages.len(),
{
    if pages.len() > 0 {
        let front = pages.drop_last();
        assert forall|i: int| 0 <= i < front.len() implies is_exact_page(#[trigger] front[i]) by {
            assert(front[i] == pages[i]);
        }
        lemma_pages_of_elements(front);
        lemma_page_of_element(pages.last());
        let elements = elements_of(pages);
        assert(elements.len() == pages.len());
        assert(elements.drop_last() =~= elements_of(front));
        assert(elements.last() == element_of(pages.last()));
        assert(front.push(pages.last()) =~= pages);
        assert(pages_of(elements.drop_last()) == Ok::<_, Failure>(front));
        assert(page_of(elements.last()) == Ok::<_, Failure>(pages.last()));
    } else {
        assert(elements_of(pages) =~= Seq::empty());
        assert(pages =~= Seq::empty());
    }
}

/// The events that are written for a sitemap read back as the sitemap.
///
/// This holds of exact pages: those whose URLs are in canonical form, whose
/// timestamps have a text and whose hashes are plain. It speaks of events:
/// that the reader delivers for the written document the events that the
/// writer took is not stated here.
pub proof fn lemma_decode_encode(pages: Seq<PageView>)
    requires
        is_exact(pages),
    ensures
        decode(encode(pages)) == Ok::<_, Failure>(pages),
{
    let elements = elements_of(pages);
    assert forall|i: int| 0 <= i < elements.len() implies is_exact_element(
        #[trigger] elements[i],
    ) by {
        lemma_page_of_element(pages[i]);
    }
    lemma_scan_document(elements);
    lemma_pages_of_elements(pages);
}

/// Where none of the `meta` elements carries a hash, none is recognized: a
/// `url` element whose `meta` elements all have another name, or a content
/// of another length, describes a page without a hash.
pub proof fn lemma_no_hash_without_hash_meta(meta: Seq<MetaView>)
    requires
        forall|i: int| 0 <= i < meta.len() ==> !is_hash_meta(#[trigger] meta[i]),
    ensures
        recognized_hash(meta) is None,
    decreases meta.len(),
{
    if meta.len() > 0 {
        assert forall|i: int| 0 <= i < meta.skip(1).len() implies !is_hash_meta(
            #[trigger] meta.skip(1)[i],
        ) by {
            assert(meta.skip(1)[i] == meta[i + 1]);
        }
        lemma_no_hash_without_hash_meta(meta.skip(1));
    }
}

/// A recognized hash is the trimmed content of the first `meta` element that
/// carries one.
pub proof fn lemma_recognized_hash_is_first(meta: Seq<MetaView>)
    requires
        recognized_hash(meta) is Some,
    ensures
        exists|k: int|
            0 <= k < meta.len() && is_hash_meta(#[trigger] meta[k]) && recognized_hash(meta) == Some(
                trim(meta[k].content),
            ) && forall|i: int| 0 <= i < k ==> !is_hash_meta(#[trigger] meta[i]),
    decreases meta.len(),
{
    if is_hash_meta(meta[0]) {
        assert(is_hash_meta(meta[0]) && recognized_hash(meta) == Some(trim(meta[0].content)));
    } else {
        lemma_recognized_hash_is_first(meta.skip(1));
        let k = choose|k: int|
            0 <= k < meta.skip(1).len() && is_hash_meta(#[trigger] meta.skip(1)[k])
                && recognized_hash(meta.skip(1)) == Some(trim(meta.skip(1)[k].content)) && forall|
                i: int,
            | 0 <= i < k ==> !is_hash_meta(#[trigger] meta.skip(1)[i]);
        assert(meta.skip(1)[k] == meta[k + 1]);
        assert forall|i: int| 0 <= i < k + 1 implies !is_hash_meta(#[trigger] meta[i]) by {
            if i > 0 {
                assert(meta.skip(1)[i - 1] == meta[i]);
            }
        }
        assert(is_hash_meta(meta[k + 1]));
    }
}

/// An event as a reader delivers it: without the declarations of namespaces.
pub open spec fn as_delivered(event: XmlEventView) -> XmlEventView {
    match event {
        XmlEventView::StartElement {
            name,
            prefix,
            namespace,
            namespaces,
            attributes,
        } => XmlEventView::StartElement {
            name,
            prefix,
            namespace,
            namespaces: Seq::empty(),
            attributes,
        },
        _ => event,
    }
}

/// The events of a written document as a reader delivers them: without the
/// XML declaration at the front, without the declarations of namespaces, and
/// with the end of the document behind them.
pub open spec fn as_read(events: Seq<XmlEventView>) -> Seq<XmlEventView> {
    Seq::new((events.len() - 1) as nat, |i: int| as_delivered(events[i + 1])).push(
        XmlEventView::EndDocument,
    )
}

/// The reading does not look at the declarations of namespaces.
proof fn lemma_scan_as_delivered(state: ScanView, events: Seq<XmlEventView>)
    ensures
        scan(state, Seq::new(events.len(), |i: int| as_delivered(events[i]))) == scan(
            state,
            events,
        ),
    decreases events.len(),
{
    let delivered = Seq::new(events.len(), |i: int| as_delivered(events[i]));
    if events.len() > 0 {
        assert(scan_step(state, delivered[0]) == scan_step(state, events[0]));
        assert(delivered.skip(1) =~= Seq::new(
            events.skip(1).len(),
            |i: int| as_delivered(events.skip(1)[i]),
        ));
        lemma_scan_as_delivered(scan_step(state, events[0]), events.skip(1));
    }
}

/// The events that are written for a sitemap, as a reader delivers them,
/// read back as the sitemap, where the pages are exact.
pub proof fn lemma_decode_as_read(pages: Seq<PageView>)
    requires
        is_exact(pages),
    ensures
        decode(as_read(encode(pages))) == Ok::<_, Failure>(pages),
{
    let written = encode(pages);
    let declaration = seq![XmlEventView::StartDocument { encoding: DOCUMENT_ENCODING@ }];
    let body = written.skip(1);
    let delivered = Seq::new(body.len(), |i: int| as_delivered(body[i]));
    let end = seq![XmlEventView::EndDocument];
    lemma_decode_encode(pages);
    assert(written =~= declaration + body);
    lemma_scan_concat(ScanView::Start, declaration, body);
    lemma_scan_one(ScanView::Start, declaration[0]);
    assert(scan(ScanView::Start, written) == scan(ScanView::Start, body));
    lemma_scan_as_delivered(ScanView::Start, body);
    lemma_scan_concat(ScanView::Start, delivered, end);
    lemma_scan_one(scan(ScanView::Start, delivered), end[0]);
    assert(as_read(written) =~= delivered + end);
}

/// The document that is written for a sitemap reads back as the sitemap,
/// where the pages are exact and the reader delivers for the document the
/// events that were written. That the reader does so is a matter of the XML
/// reader and writer alone, and is assumed here, not shown.
pub proof fn lemma_decode_written_document(pages: Seq<PageView>)
    requires
        is_exact(pages),
        xml_events(xml_text(true, encode(pages))) == as_read(encode(pages)),
    ensures
        decode(xml_events(xml_text(true, encode(pages)))) == Ok::<_, Failure>(pages),
{
    lemma_decode_as_read(pages);
}

fn same_attributes(a: &Vec<XmlAttribute>, b: &Vec<XmlAttribute>) -> (r: bool)
    ensures
        r == (Seq::new(a@.len(), |i: int| a@[i]@) == Seq::new(b@.len(), |i: int| b@[i]@)),
{
    let ghost left = Seq::new(a@.len(), |i: int| a@[i]@);
    let ghost right = Seq::new(b@.len(), |i: int| b@[i]@);
    if a.len() != b.len() {
        assert(left.len() != right.len());
        return false;
    }
    let mut i: usize = 0;
    while i < a.len()
        invariant
            i <= a.len(),
            a.len() == b.len(),
            left == Seq::new(a@.len(), |i: int| a@[i]@),
            right == Seq::new(b@.len(), |i: int| b@[i]@),
            forall|j: int| 0 <= j < i ==> left[j] == right[j],
        decreases a.len() - i,
    {
        if !(a[i].name == b[i].name && a[i].value == b[i].value) {
            assert(left[i as int] != right[i as int]);
            return false;
        }
        i += 1;
    }
    assert(left =~= right);
    true
}

/// Whether `read` is the event `written` as a reader delivers it.
fn is_delivered(read: &XmlEvent, written: &XmlEvent) -> (r: bool)
    ensures
        r == (read@ == as_delivered(written@)),
{
    match (read, written) {
        (
            XmlEvent::StartElement { name, prefix, namespace, namespaces, attributes },
            XmlEvent::StartElement {
                name: written_name,
                prefix: written_prefix,
                namespace: written_namespace,
                attributes: written_attributes,
                ..
            },
        ) => {
            let r = *name == *written_name && same_optional_text(prefix, written_prefix)
                && same_optional_text(namespace, written_namespace) && namespaces.len() == 0
                && same_attributes(attributes, written_attributes);
            proof {
                if namespaces.len() == 0 {
                    assert(read@->StartElement_namespaces =~= Seq::empty());
                } else {
                    assert(read@->StartElement_namespaces.len() != 0);
                }
            }
            r
        },
        (XmlEvent::StartDocument { encoding }, XmlEvent::StartDocument { encoding: written }) => {
            *encoding == *written
        },
        (XmlEvent::EndElement { name }, XmlEvent::EndElement { name: written }) => *name == *written,
        (XmlEvent::Characters(text), XmlEvent::Characters(written)) => *text == *written,
        (XmlEvent::EndDocument, XmlEvent::EndDocument) => true,
        (XmlEvent::Unexpected, XmlEvent::Unexpected) => true,
        (XmlEvent::Failure(reason), XmlEvent::Failure(written)) => *reason == *written,
        _ => false,
    }
}

/// Whether `read` holds the events `written` as a reader delivers them.
fn is_read_back(read: &Vec<XmlEvent>, written: &Vec<XmlEvent>) -> (r: bool)
    requires
        written.len() > 0,
    ensures
        r == (event_views(read@) == as_read(event_views(written@))),
{
    let ghost got = event_views(read@);
    let ghost expected = as_read(event_views(written@));
    let n = written.len();
    if read.len() != n {
        assert(got.len() != expected.len());
        return false;
    }
    let mut i: usize = 0;
    while i + 1 < n
        invariant
            i + 1 <= n,
            n == written.len(),
            n == read.len(),
            got == event_views(read@),
            expected == as_read(event_views(written@)),
            forall|j: int| 0 <= j < i ==> got[j] == expected[j],
        decreases n - i,
    {
        assert(expected[i as int] == as_delivered(written@[i + 1]@));
        assert(got[i as int] == read@[i as int]@);
        if !is_delivered(&read[i], &written[i + 1]) {
            assert(got[i as int] != expected[i as int]);
            return false;
        }
        i += 1;
    }
    assert(got[n - 1] == read@[n - 1]@);
    assert(expected[n - 1] == XmlEventView::EndDocument);
    let last = match &read[n - 1] {
        XmlEvent::EndDocument => true,
        _ => false,
    };
    if !last {
        assert(got[n - 1] != expected[n - 1]);
        return false;
    }
    assert(got =~= expected);
    true
}

impl Sitemap {
    /// Whether every page is exact.
    pub fn is_exact(&self) -> (r: bool)
        ensures
            r == is_exact(self@),
    {
        let mut i: usize = 0;
        while i < self.pages.len()
            invariant
                i <= self.pages.len(),
                forall|j: int| 0 <= j < i ==> is_exact_page(#[trigger] self@[j]),
            decreases self.pages.len() - i,
        {
            assert(self@[i as int] == self.pages@[i as int]@);
            if !self.pages[i].is_exact() {
                return false;
            }
            i += 1;
        }
        true
    }

    /// Writes the sitemap as `serialize` does and reads the document back.
    /// The bytes are returned where the pages are exact and the reader
    /// delivers the events that were written; the document then reads back
    /// as this sitemap.
    pub fn serialize_checked(&self) -> (r: Option<Vec<u8>>)
        ensures
            match r {
                Some(bytes) => {
                    &&& bytes@ == xml_text(true, encode(self@))
                    &&& decode(xml_events(bytes@)) == Ok::<_, Failure>(self@)
                },
                None => !is_exact(self@) || xml_events(xml_text(true, encode(self@))) != as_read(
                    encode(self@),
                ),
            },
    {
        if !self.is_exact() {
            return None;
        }
        let written = self.to_events();
        match write_events(&written, true) {
            Ok(bytes) => {
                let read = read_events(bytes.as_slice());
                assert(encode(self@).len() > 0);
                if is_read_back(&read, &written) {
                    proof {
                        lemma_decode_written_document(self@);
                    }
                    Some(bytes)
                } else {
                    None
                }
            },
            Err(_) => None,
        }
    }
}

} // verus!

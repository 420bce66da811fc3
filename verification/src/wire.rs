//! The sitemap as it stands in an XML document: its elements, the events
//! that make them up, and the reading of events back into elements.

use crate::error::{Failure, SitemapError};
use crate::events::{
    accepted_from, all_accepted, event_views, lemma_accepted_concat, lemma_all_accepted,
    XmlAttribute, XmlEvent, XmlEventView, XmlNamespace,
};
use crate::text::str_eq;
use crate::timestamp::{invalid_timestamp, rfc3339_text, timestamp_of, DateTimeSerde};
use crate::web_url::{invalid_url, url_canonical, UrlSerde, UrlView};
use vstd::prelude::*;
use vstd::string::StringExecFns;

verus! {

/// The namespace of sitemap documents.
pub const SITEMAP_NAMESPACE: &'static str = "http://www.sitemaps.org/schemas/sitemap/0.9";

/// The namespace of the element that carries the content hash.
pub const XHTML_NAMESPACE: &'static str = "http://www.w3.org/1999/xhtml";

/// The prefix under which documents declare `XHTML_NAMESPACE`.
pub const XHTML_PREFIX: &'static str = "xhtml";

/// The name by which a `meta` element says that it carries the content hash.
pub const HASH_META_NAME: &'static str = "auto_sitemap_md5_hash";

/// The encoding that the XML declaration names.
pub const DOCUMENT_ENCODING: &'static str = "utf-8";

/// A `meta` element: a name and a content.
#[derive(Debug, PartialEq, Eq)]
pub struct Meta {
    name: String,
    content: String,
}

/// A `meta` element as contracts see it.
pub struct MetaView {
    pub name: Seq<char>,
    pub content: Seq<char>,
}

impl View for Meta {
    type V = MetaView;

    closed spec fn view(&self) -> MetaView {
        MetaView { name: self.name@, content: self.content@ }
    }
}

impl Clone for Meta {
    fn clone(&self) -> (r: Self)
        ensures
            r@ == self@,
    {
        Meta { name: self.name.clone(), content: self.content.clone() }
    }
}

impl Meta {
    pub fn new(name: String, content: String) -> (r: Meta)
        ensures
            r@ == (MetaView { name: name@, content: content@ }),
    {
        Meta { name, content }
    }

    pub fn name(&self) -> (r: &str)
        ensures
            r@ == self@.name,
    {
        self.name.as_str()
    }

    pub fn content(&self) -> (r: &str)
        ensures
            r@ == self@.content,
    {
        self.content.as_str()
    }
}

/// A `url` element: what a document says of one page.
#[derive(Debug, PartialEq, Eq)]
pub struct PageSerde {
    /// The `loc` child.
    pub url: Option<UrlSerde>,
    /// The `lastmod` child.
    pub lastmod: Option<DateTimeSerde>,
    /// The `meta` children, in their order.
    pub meta: Vec<Meta>,
}

/// A `url` element as contracts see it.
pub struct PageSerdeView {
    pub url: Option<UrlView>,
    pub lastmod: Option<int>,
    pub meta: Seq<MetaView>,
}

impl View for PageSerde {
    type V = PageSerdeView;

    open spec fn view(&self) -> PageSerdeView {
        PageSerdeView {
            url: match self.url {
                Some(u) => Some(u@),
                None => None,
            },
            lastmod: match self.lastmod {
                Some(t) => Some(t@),
                None => None,
            },
            meta: Seq::new(self.meta@.len(), |i: int| self.meta@[i]@),
        }
    }
}

/// The `urlset` element: the `url` elements of a document, in their order.
#[derive(Debug, PartialEq, Eq)]
pub struct SitemapSerde {
    pub pages: Vec<PageSerde>,
}

impl View for SitemapSerde {
    type V = Seq<PageSerdeView>;

    open spec fn view(&self) -> Seq<PageSerdeView> {
        Seq::new(self.pages@.len(), |i: int| self.pages@[i]@)
    }
}

/// The start of an element of the sitemap namespace, without attributes.
pub open spec fn plain_start(name: Seq<char>) -> XmlEventView {
    XmlEventView::StartElement {
        name,
        prefix: None,
        namespace: Some(SITEMAP_NAMESPACE@),
        namespaces: Seq::empty(),
        attributes: Seq::empty(),
    }
}

/// The start of the `urlset` element, which declares the two namespaces.
pub open spec fn root_start() -> XmlEventView {
    XmlEventView::StartElement {
        name: "urlset"@,
        prefix: None,
        namespace: Some(SITEMAP_NAMESPACE@),
        namespaces: seq![(""@, SITEMAP_NAMESPACE@), (XHTML_PREFIX@, XHTML_NAMESPACE@)],
        attributes: Seq::empty(),
    }
}

/// The start of a `meta` element.
pub open spec fn meta_start(meta: MetaView) -> XmlEventView {
    XmlEventView::StartElement {
        name: "meta"@,
        prefix: Some(XHTML_PREFIX@),
        namespace: Some(XHTML_NAMESPACE@),
        namespaces: seq![(XHTML_PREFIX@, XHTML_NAMESPACE@)],
        attributes: seq![("name"@, meta.name), ("content"@, meta.content)],
    }
}

/// An element that holds a text and nothing else.
pub open spec fn text_element(name: Seq<char>, text: Seq<char>) -> Seq<XmlEventView> {
    seq![
        plain_start(name),
        XmlEventView::Characters(text),
        XmlEventView::EndElement { name },
    ]
}

/// The events of the first `n` `meta` elements.
pub open spec fn meta_events(meta: Seq<MetaView>, n: int) -> Seq<XmlEventView>
    decreases n,
{
    if n <= 0 {
        Seq::empty()
    } else {
        meta_events(meta, n - 1).push(meta_start(meta[n - 1])).push(
            XmlEventView::EndElement { name: "meta"@ },
        )
    }
}

/// The events of a `url` element: `loc`, `lastmod` and the `meta` elements,
/// in this order, each only where the page has it.
pub open spec fn page_events(page: PageSerdeView) -> Seq<XmlEventView> {
    seq![plain_start("url"@)] + (match page.url {
        Some(u) => text_element("loc"@, u.text),
        None => Seq::empty(),
    }) + (match page.lastmod {
        Some(t) => text_element("lastmod"@, rfc3339_text(t).unwrap()),
        None => Seq::empty(),
    }) + meta_events(page.meta, page.meta.len() as int) + seq![
        XmlEventView::EndElement { name: "url"@ },
    ]
}

/// The events of the first `n` `url` elements.
pub open spec fn pages_events(pages: Seq<PageSerdeView>, n: int) -> Seq<XmlEventView>
    decreases n,
{
    if n <= 0 {
        Seq::empty()
    } else {
        pages_events(pages, n - 1) + page_events(pages[n - 1])
    }
}

/// The events of the `urlset` element.
pub open spec fn sitemap_events(pages: Seq<PageSerdeView>) -> Seq<XmlEventView> {
    seq![root_start()] + pages_events(pages, pages.len() as int) + seq![
        XmlEventView::EndElement { name: "urlset"@ },
    ]
}

/// The events of a document: the XML declaration and the `urlset` element.
pub open spec fn document_events(pages: Seq<PageSerdeView>) -> Seq<XmlEventView> {
    seq![XmlEventView::StartDocument { encoding: DOCUMENT_ENCODING@ }] + sitemap_events(pages)
}

/// A writer with an open element takes three events that start an element,
/// fill it and end it.
proof fn lemma_element_is_accepted(open: int, events: Seq<XmlEventView>)
    requires
        open >= 0,
        events.len() == 3,
        events[0] is StartElement,
        events[1] is Characters,
        events[2] is EndElement,
    ensures
        accepted_from(open, true, events) == Some(open),
{
    assert(events.skip(1)[0] == events[1]);
    assert(events.skip(1).skip(1)[0] == events[2]);
    assert(events.skip(1).skip(1).skip(1).len() == 0);
    assert(accepted_from(open, true, events.skip(1).skip(1).skip(1)) == Some(open));
    assert(accepted_from(open + 1, true, events.skip(1).skip(1)) == Some(open));
    assert(accepted_from(open + 1, true, events.skip(1)) == Some(open));
}

/// A writer takes the events of `meta` elements.
proof fn lemma_meta_is_accepted(open: int, meta: Seq<MetaView>, n: int)
    requires
        open >= 0,
        0 <= n <= meta.len(),
    ensures
        accepted_from(open, true, meta_events(meta, n)) == Some(open),
    decreases n,
{
    if n > 0 {
        lemma_meta_is_accepted(open, meta, n - 1);
        let front = meta_events(meta, n - 1);
        let tail = seq![meta_start(meta[n - 1]), XmlEventView::EndElement { name: "meta"@ }];
        assert(meta_events(meta, n) =~= front + tail);
        lemma_accepted_concat(open, true, front, tail);
        assert(tail.skip(1)[0] == tail[1]);
        assert(tail.skip(1).skip(1).len() == 0);
        assert(accepted_from(open, true, tail.skip(1).skip(1)) == Some(open));
        assert(accepted_from(open + 1, true, tail.skip(1)) == Some(open));
    }
}

/// A writer takes the events of a `url` element.
proof fn lemma_page_is_accepted(open: int, page: PageSerdeView)
    requires
        open >= 0,
    ensures
        accepted_from(open, true, page_events(page)) == Some(open),
{
    let start = seq![plain_start("url"@)];
    let loc = match page.url {
        Some(u) => text_element("loc"@, u.text),
        None => Seq::empty(),
    };
    let lastmod = match page.lastmod {
        Some(t) => text_element("lastmod"@, rfc3339_text(t).unwrap()),
        None => Seq::empty(),
    };
    let meta = meta_events(page.meta, page.meta.len() as int);
    let end = seq![XmlEventView::EndElement { name: "url"@ }];
    assert(start.skip(1).len() == 0);
    assert(accepted_from(open + 1, true, start.skip(1)) == Some(open + 1));
    assert(accepted_from(open, true, start) == Some(open + 1));
    if page.url is Some {
        lemma_element_is_accepted(open + 1, loc);
    }
    assert(accepted_from(open + 1, true, loc) == Some(open + 1));
    if page.lastmod is Some {
        lemma_element_is_accepted(open + 1, lastmod);
    }
    assert(accepted_from(open + 1, true, lastmod) == Some(open + 1));
    lemma_meta_is_accepted(open + 1, page.meta, page.meta.len() as int);
    assert(end.skip(1).len() == 0);
    assert(accepted_from(open, true, end.skip(1)) == Some(open));
    assert(accepted_from(open + 1, true, end) == Some(open));
    lemma_accepted_concat(open, true, start, loc);
    lemma_accepted_concat(open, true, start + loc, lastmod);
    lemma_accepted_concat(open, true, start + loc + lastmod, meta);
    lemma_accepted_concat(open, true, start + loc + lastmod + meta, end);
    assert(page_events(page) == start + loc + lastmod + meta + end);
}

/// A writer takes the events of `url` elements.
proof fn lemma_pages_are_accepted(open: int, pages: Seq<PageSerdeView>, n: int)
    requires
        open >= 0,
        0 <= n <= pages.len(),
    ensures
        accepted_from(open, true, pages_events(pages, n)) == Some(open),
    decreases n,
{
    if n > 0 {
        lemma_pages_are_accepted(open, pages, n - 1);
        lemma_page_is_accepted(open, pages[n - 1]);
        lemma_accepted_concat(open, true, pages_events(pages, n - 1), page_events(pages[n - 1]));
    }
}

/// A fresh writer takes the events of a document, whatever its pages.
pub proof fn lemma_document_is_accepted(pages: Seq<PageSerdeView>)
    ensures
        all_accepted(document_events(pages)),
{
    let declaration = seq![XmlEventView::StartDocument { encoding: DOCUMENT_ENCODING@ }];
    let root = seq![root_start()];
    let body = pages_events(pages, pages.len() as int);
    let end = seq![XmlEventView::EndElement { name: "urlset"@ }];
    assert(declaration.skip(1).len() == 0);
    assert(accepted_from(0, true, declaration.skip(1)) == Some(0int));
    assert(accepted_from(0, false, declaration) == Some(0int));
    assert(root.skip(1).len() == 0);
    assert(accepted_from(1, true, root.skip(1)) == Some(1int));
    assert(accepted_from(0, true, root) == Some(1int));
    lemma_pages_are_accepted(1, pages, pages.len() as int);
    assert(end.skip(1).len() == 0);
    assert(accepted_from(0, true, end.skip(1)) == Some(0int));
    assert(accepted_from(1, true, end) == Some(0int));
    lemma_accepted_concat(0, false, declaration, root);
    lemma_accepted_concat(0, false, declaration + root, body);
    lemma_accepted_concat(0, false, declaration + root + body, end);
    assert(document_events(pages) =~= declaration + root + body + end);
    lemma_all_accepted(document_events(pages));
}

fn plain_start_event(name: &str) -> (r: XmlEvent)
    ensures
        r@ == plain_start(name@),
{
    let r = XmlEvent::StartElement {
        name: name.to_owned(),
        prefix: None,
        namespace: Some(SITEMAP_NAMESPACE.to_owned()),
        namespaces: Vec::new(),
        attributes: Vec::new(),
    };
    assert(r@->StartElement_namespaces =~= Seq::empty());
    assert(r@->StartElement_attributes =~= Seq::empty());
    r
}

fn root_start_event() -> (r: XmlEvent)
    ensures
        r@ == root_start(),
{
    let mut namespaces: Vec<XmlNamespace> = Vec::new();
    namespaces.push(XmlNamespace { prefix: "".to_owned(), uri: SITEMAP_NAMESPACE.to_owned() });
    namespaces.push(
        XmlNamespace { prefix: XHTML_PREFIX.to_owned(), uri: XHTML_NAMESPACE.to_owned() },
    );
    let r = XmlEvent::StartElement {
        name: "urlset".to_owned(),
        prefix: None,
        namespace: Some(SITEMAP_NAMESPACE.to_owned()),
        namespaces,
        attributes: Vec::new(),
    };
    assert(r@->StartElement_namespaces =~= root_start()->StartElement_namespaces);
    assert(r@->StartElement_attributes =~= Seq::empty());
    r
}

fn meta_start_event(meta: &Meta) -> (r: XmlEvent)
    ensures
        r@ == meta_start(meta@),
{
    let mut namespaces: Vec<XmlNamespace> = Vec::new();
    namespaces.push(
        XmlNamespace { prefix: XHTML_PREFIX.to_owned(), uri: XHTML_NAMESPACE.to_owned() },
    );
    let mut attributes: Vec<XmlAttribute> = Vec::new();
    attributes.push(XmlAttribute { name: "name".to_owned(), value: meta.name.clone() });
    attributes.push(XmlAttribute { name: "content".to_owned(), value: meta.content.clone() });
    let r = XmlEvent::StartElement {
        name: "meta".to_owned(),
        prefix: Some(XHTML_PREFIX.to_owned()),
        namespace: Some(XHTML_NAMESPACE.to_owned()),
        namespaces,
        attributes,
    };
    assert(r@->StartElement_namespaces =~= meta_start(meta@)->StartElement_namespaces);
    assert(r@->StartElement_attributes =~= meta_start(meta@)->StartElement_attributes);
    r
}

fn push_text_element(out: &mut Vec<XmlEvent>, name: &str, text: &str)
    ensures
        event_views(final(out)@) == event_views(old(out)@) + text_element(name@, text@),
{
    let ghost before = event_views(out@);
    out.push(plain_start_event(name));
    out.push(XmlEvent::Characters(text.to_owned()));
    out.push(XmlEvent::EndElement { name: name.to_owned() });
    assert(event_views(out@) =~= before + text_element(name@, text@));
}

impl PageSerde {
    /// Appends the events of this `url` element.
    pub fn push_events(&self, out: &mut Vec<XmlEvent>)
        ensures
            event_views(final(out)@) == event_views(old(out)@) + page_events(self@),
    {
        let ghost before = event_views(out@);
        out.push(plain_start_event("url"));
        assert(event_views(out@) =~= before + seq![plain_start("url"@)]);
        match &self.url {
            Some(u) => {
                push_text_element(out, "loc", u.as_str());
            },
            None => {},
        }
        let ghost with_loc = event_views(out@);
        match &self.lastmod {
            Some(t) => {
                push_text_element(out, "lastmod", t.to_rfc3339());
            },
            None => {},
        }
        let ghost with_lastmod = event_views(out@);
        let mut i: usize = 0;
        while i < self.meta.len()
            invariant
                i <= self.meta.len(),
                event_views(out@) == with_lastmod + meta_events(self@.meta, i as int),
            decreases self.meta.len() - i,
        {
            let ghost so_far = event_views(out@);
            out.push(meta_start_event(&self.meta[i]));
            out.push(XmlEvent::EndElement { name: "meta".to_owned() });
            proof {
                assert(self@.meta[i as int] == self.meta@[i as int]@);
                assert(event_views(out@) =~= so_far.push(meta_start(self@.meta[i as int])).push(
                    XmlEventView::EndElement { name: "meta"@ },
                ));
                assert(event_views(out@) =~= with_lastmod + meta_events(self@.meta, i + 1));
            }
            i += 1;
        }
        let ghost with_meta = event_views(out@);
        out.push(XmlEvent::EndElement { name: "url".to_owned() });
        proof {
            assert(event_views(out@) =~= with_meta + seq![
                XmlEventView::EndElement { name: "url"@ },
            ]);
            assert(event_views(out@) =~= before + page_events(self@));
        }
    }
}

impl SitemapSerde {
    /// The events of the document: the XML declaration and the `urlset` element.
    pub fn events(&self) -> (r: Vec<XmlEvent>)
        ensures
            event_views(r@) == document_events(self@),
            all_accepted(event_views(r@)),
    {
        proof {
            lemma_document_is_accepted(self@);
        }
        let mut out: Vec<XmlEvent> = Vec::new();
        out.push(XmlEvent::StartDocument { encoding: DOCUMENT_ENCODING.to_owned() });
        out.push(root_start_event());
        let ghost head = event_views(out@);
        assert(head =~= seq![
            XmlEventView::StartDocument { encoding: DOCUMENT_ENCODING@ },
            root_start(),
        ]);
        let mut i: usize = 0;
        while i < self.pages.len()
            invariant
                i <= self.pages.len(),
                event_views(out@) == head + pages_events(self@, i as int),
            decreases self.pages.len() - i,
        {
            self.pages[i].push_events(&mut out);
            proof {
                assert(self@[i as int] == self.pages@[i as int]@);
                assert(event_views(out@) =~= head + pages_events(self@, i + 1));
            }
            i += 1;
        }
        let ghost body = event_views(out@);
        out.push(XmlEvent::EndElement { name: "urlset".to_owned() });
        proof {
            assert(event_views(out@) =~= body + seq![XmlEventView::EndElement { name: "urlset"@ }]);
            assert(event_views(out@) =~= document_events(self@));
        }
        out
    }
}

/// Why a document is refused that ends before its root element does.
pub const UNFINISHED: &'static str = "the document ends within an element";

/// Why a document is refused that holds an event where none of its kind can stand.
pub const UNEXPECTED: &'static str = "unexpected event";

/// Why a document is refused in which a `loc` or `lastmod` holds no text.
pub const UNABLE_TO_PARSE: &'static str = "Unable to parse";

/// Why a document is refused whose root element, of the given name, is of
/// another namespace than that of sitemaps.
pub open spec fn bad_namespace(name: Seq<char>, namespace: Seq<char>) -> Seq<char> {
    "bad namespace for "@ + name + ", found "@ + namespace
}

/// The failure at an event that stands where the text of a `loc` or
/// `lastmod` is due: where the reader has failed, it holds the reader's
/// message, else `UNABLE_TO_PARSE`.
pub open spec fn no_text(event: XmlEventView) -> Failure {
    Failure::XmlSyntaxError(
        match event {
            XmlEventView::Failure(reason) => reason,
            _ => UNABLE_TO_PARSE@,
        },
    )
}

/// The failure at an event that cannot stand where it stands: where the
/// reader has failed, it holds the reader's message.
pub open spec fn unexpected_event(event: XmlEventView) -> Failure {
    Failure::XmlSyntaxError(
        match event {
            XmlEventView::Failure(reason) => reason,
            XmlEventView::EndDocument => UNFINISHED@,
            _ => UNEXPECTED@,
        },
    )
}

/// The two elements of a page that hold a text.
#[derive(Debug, Clone, Copy, PartialEq, Eq)]
pub enum TextField {
    Loc,
    Lastmod,
}

/// Where the reading of a document stands, as contracts see it.
pub enum ScanView {
    /// Before the root element.
    Start,
    /// In the root element, between its children.
    Root { pages: Seq<PageSerdeView> },
    /// In a `url` element, between its children.
    Page { pages: Seq<PageSerdeView>, page: PageSerdeView },
    /// In a `loc` or `lastmod` element, before its text. `depth` counts the
    /// elements that were started since, the `loc` or `lastmod` included.
    Text { pages: Seq<PageSerdeView>, page: PageSerdeView, field: TextField, depth: nat },
    /// In an element whose remaining content is passed over: a child of the
    /// root where `page` is `None`, else a child of the `url` element that
    /// has given `page` so far. `depth` counts the elements yet to end.
    Skip { pages: Seq<PageSerdeView>, page: Option<PageSerdeView>, depth: nat },
    /// Behind the end of the root element.
    Done { pages: Seq<PageSerdeView> },
    Failed(Failure),
}

/// A `url` element without children.
pub open spec fn empty_page() -> PageSerdeView {
    PageSerdeView { url: None, lastmod: None, meta: Seq::empty() }
}

/// The value of the last attribute with the given name; empty where there is none.
pub open spec fn attribute_value(attributes: Seq<(Seq<char>, Seq<char>)>, name: Seq<char>) -> Seq<
    char,
>
    decreases attributes.len(),
{
    if attributes.len() == 0 {
        Seq::empty()
    } else if attributes.last().0 == name {
        attributes.last().1
    } else {
        attribute_value(attributes.drop_last(), name)
    }
}

/// The `meta` element with the given attributes.
pub open spec fn meta_of(attributes: Seq<(Seq<char>, Seq<char>)>) -> MetaView {
    MetaView {
        name: attribute_value(attributes, "name"@),
        content: attribute_value(attributes, "content"@),
    }
}

/// The elements that the state counts as open.
pub open spec fn depth_of(state: ScanView) -> nat {
    match state {
        ScanView::Text { depth, .. } => depth,
        ScanView::Skip { depth, .. } => depth,
        _ => 0,
    }
}

/// The state after one more event.
///
/// An XML declaration before the root element is passed over. The root
/// element may have any name. Its children named `url` are pages,
/// whatever their namespace; its other children are passed over, and so is
/// text. In a page the children `loc`, `lastmod` and `meta` are read and the
/// others passed over; of several `loc` or `lastmod` the last counts. The
/// text of `loc` and `lastmod` is the first text in the element, which may
/// stand in elements nested in it; the rest of the element is passed over.
/// A `loc` or `lastmod` without a text fails the reading.
/// The end of the root element ends the reading: what follows is not looked at.
pub open spec fn scan_step(state: ScanView, event: XmlEventView) -> ScanView {
    match state {
        ScanView::Start => match event {
            XmlEventView::StartDocument { .. } => state,
            XmlEventView::StartElement { name, namespace, .. } => match namespace {
                Some(n) => if n == SITEMAP_NAMESPACE@ {
                    ScanView::Root { pages: Seq::empty() }
                } else {
                    ScanView::Failed(Failure::XmlSyntaxError(bad_namespace(name, n)))
                },
                None => ScanView::Root { pages: Seq::empty() },
            },
            _ => ScanView::Failed(unexpected_event(event)),
        },
        ScanView::Root { pages } => match event {
            XmlEventView::StartElement { name, .. } => if name == "url"@ {
                ScanView::Page { pages, page: empty_page() }
            } else {
                ScanView::Skip { pages, page: None, depth: 1 }
            },
            XmlEventView::Characters(_) => state,
            XmlEventView::EndElement { .. } => ScanView::Done { pages },
            _ => ScanView::Failed(unexpected_event(event)),
        },
        ScanView::Page { pages, page } => match event {
            XmlEventView::StartElement { name, attributes, .. } => if name == "loc"@ {
                ScanView::Text { pages, page, field: TextField::Loc, depth: 1 }
            } else if name == "lastmod"@ {
                ScanView::Text { pages, page, field: TextField::Lastmod, depth: 1 }
            } else if name == "meta"@ {
                ScanView::Skip {
                    pages,
                    page: Some(PageSerdeView { meta: page.meta.push(meta_of(attributes)), ..page }),
                    depth: 1,
                }
            } else {
                ScanView::Skip { pages, page: Some(page), depth: 1 }
            },
            XmlEventView::Characters(_) => state,
            XmlEventView::EndElement { .. } => ScanView::Root { pages: pages.push(page) },
            _ => ScanView::Failed(unexpected_event(event)),
        },
        ScanView::Text { pages, page, field, depth } => match event {
            XmlEventView::StartElement { .. } => ScanView::Text {
                pages,
                page,
                field,
                depth: depth + 1,
            },
            XmlEventView::Characters(text) => match field {
                TextField::Loc => match url_canonical(text) {
                    Some(u) => ScanView::Skip {
                        pages,
                        page: Some(PageSerdeView { url: Some(u), ..page }),
                        depth,
                    },
                    None => ScanView::Failed(invalid_url(text)),
                },
                TextField::Lastmod => match timestamp_of(text) {
                    Some(t) => ScanView::Skip {
                        pages,
                        page: Some(PageSerdeView { lastmod: Some(t), ..page }),
                        depth,
                    },
                    None => ScanView::Failed(invalid_timestamp(text)),
                },
            },
            _ => ScanView::Failed(no_text(event)),
        },
        ScanView::Skip { pages, page, depth } => match event {
            XmlEventView::StartElement { .. } => ScanView::Skip { pages, page, depth: depth + 1 },
            XmlEventView::EndElement { .. } => if depth <= 1 {
                match page {
                    Some(p) => ScanView::Page { pages, page: p },
                    None => ScanView::Root { pages },
                }
            } else {
                ScanView::Skip { pages, page, depth: (depth - 1) as nat }
            },
            XmlEventView::EndDocument => ScanView::Failed(unexpected_event(event)),
            XmlEventView::Failure(_) => ScanView::Failed(unexpected_event(event)),
            _ => state,
        },
        ScanView::Done { .. } => state,
        ScanView::Failed(_) => state,
    }
}

/// The state after a sequence of events.
pub open spec fn scan(state: ScanView, events: Seq<XmlEventView>) -> ScanView
    decreases events.len(),
{
    if events.len() == 0 {
        state
    } else {
        scan(scan_step(state, events[0]), events.skip(1))
    }
}

/// What a reading has given: the pages where it reached the end of the root
/// element, else the failure, which is `XmlSyntaxError` with `UNFINISHED`
/// where the events ran out.
pub open spec fn scan_result(state: ScanView) -> Result<Seq<PageSerdeView>, Failure> {
    match state {
        ScanView::Done { pages } => Ok(pages),
        ScanView::Failed(f) => Err(f),
        _ => Err(Failure::XmlSyntaxError(UNFINISHED@)),
    }
}

/// The `url` elements that a sequence of events holds.
pub open spec fn scan_document(events: Seq<XmlEventView>) -> Result<Seq<PageSerdeView>, Failure> {
    scan_result(scan(ScanView::Start, events))
}

/// The views of `url` elements.
pub open spec fn page_views(pages: Seq<PageSerde>) -> Seq<PageSerdeView> {
    Seq::new(pages.len(), |i: int| pages[i]@)
}

/// Where the reading of a document stands.
pub enum Scan {
    Start,
    Root { pages: Vec<PageSerde> },
    Page { pages: Vec<PageSerde>, page: PageSerde },
    Text { pages: Vec<PageSerde>, page: PageSerde, field: TextField, depth: usize },
    Skip { pages: Vec<PageSerde>, page: Option<PageSerde>, depth: usize },
    Done { pages: Vec<PageSerde> },
    Failed(SitemapError),
}

impl View for Scan {
    type V = ScanView;

    open spec fn view(&self) -> ScanView {
        match self {
            Scan::Start => ScanView::Start,
            Scan::Root { pages } => ScanView::Root { pages: page_views(pages@) },
            Scan::Page { pages, page } => ScanView::Page { pages: page_views(pages@), page: page@ },
            Scan::Text { pages, page, field, depth } => ScanView::Text {
                pages: page_views(pages@),
                page: page@,
                field: *field,
                depth: *depth as nat,
            },
            Scan::Skip { pages, page, depth } => ScanView::Skip {
                pages: page_views(pages@),
                page: match page {
                    Some(p) => Some(p@),
                    None => None,
                },
                depth: *depth as nat,
            },
            Scan::Done { pages } => ScanView::Done { pages: page_views(pages@) },
            Scan::Failed(e) => ScanView::Failed(e@),
        }
    }
}

/// The value of the last attribute with the given name; empty where there is none.
fn find_attribute(attributes: &Vec<XmlAttribute>, name: &str) -> (r: String)
    ensures
        r@ == attribute_value(Seq::new(attributes@.len(), |i: int| attributes@[i]@), name@),
{
    let ghost all = Seq::new(attributes@.len(), |i: int| attributes@[i]@);
    let mut i: usize = attributes.len();
    assert(all.take(i as int) =~= all);
    while i > 0
        invariant
            i <= attributes.len(),
            all == Seq::new(attributes@.len(), |i: int| attributes@[i]@),
            attribute_value(all, name@) == attribute_value(all.take(i as int), name@),
        decreases i,
    {
        i -= 1;
        proof {
            assert(all.take(i + 1).last() == attributes@[i as int]@);
            assert(all.take(i + 1).drop_last() =~= all.take(i as int));
        }
        if str_eq(attributes[i].name.as_str(), name) {
            return attributes[i].value.clone();
        }
    }
    String::new()
}

fn without_text(event: &XmlEvent) -> (r: Scan)
    ensures
        r@ == ScanView::Failed(no_text(event@)),
{
    let reason = match event {
        XmlEvent::Failure(reason) => reason.clone(),
        _ => UNABLE_TO_PARSE.to_owned(),
    };
    Scan::Failed(SitemapError::XmlSyntaxError { reason })
}

fn unexpected(event: &XmlEvent) -> (r: Scan)
    ensures
        r@ == ScanView::Failed(unexpected_event(event@)),
{
    let reason = match event {
        XmlEvent::Failure(reason) => reason.clone(),
        XmlEvent::EndDocument => UNFINISHED.to_owned(),
        _ => UNEXPECTED.to_owned(),
    };
    Scan::Failed(SitemapError::XmlSyntaxError { reason })
}

impl Scan {
    /// The state after one more event.
    pub fn step(self, event: &XmlEvent) -> (r: Scan)
        requires
            depth_of(self@) < usize::MAX,
        ensures
            r@ == scan_step(self@, event@),
            depth_of(r@) <= depth_of(self@) + 1,
    {
        match self {
            Scan::Start => match event {
                XmlEvent::StartDocument { .. } => Scan::Start,
                XmlEvent::StartElement { name, namespace, .. } => {
                    let foreign = match namespace {
                        Some(n) => if str_eq(n.as_str(), SITEMAP_NAMESPACE) {
                            None
                        } else {
                            Some(
                                String::from_str("bad namespace for ").concat(name.as_str()).concat(
                                    ", found ",
                                ).concat(n.as_str()),
                            )
                        },
                        None => None,
                    };
                    match foreign {
                        Some(reason) => Scan::Failed(SitemapError::XmlSyntaxError { reason }),
                        None => {
                            let pages: Vec<PageSerde> = Vec::new();
                            assert(page_views(pages@) =~= Seq::empty());
                            Scan::Root { pages }
                        },
                    }
                },
                _ => unexpected(event),
            },
            Scan::Root { pages } => match event {
                XmlEvent::StartElement { name, .. } => {
                    if str_eq(name.as_str(), "url") {
                        let page = PageSerde { url: None, lastmod: None, meta: Vec::new() };
                        assert(page@.meta =~= Seq::empty());
                        Scan::Page { pages, page }
                    } else {
                        Scan::Skip { pages, page: None, depth: 1 }
                    }
                },
                XmlEvent::Characters(_) => Scan::Root { pages },
                XmlEvent::EndElement { .. } => Scan::Done { pages },
                _ => unexpected(event),
            },
            Scan::Page { mut pages, page } => match event {
                XmlEvent::StartElement { name, attributes, .. } => {
                    if str_eq(name.as_str(), "loc") {
                        Scan::Text { pages, page, field: TextField::Loc, depth: 1 }
                    } else if str_eq(name.as_str(), "lastmod") {
                        Scan::Text { pages, page, field: TextField::Lastmod, depth: 1 }
                    } else if str_eq(name.as_str(), "meta") {
                        let ghost before = page@;
                        let meta = Meta {
                            name: find_attribute(attributes, "name"),
                            content: find_attribute(attributes, "content"),
                        };
                        let PageSerde { url, lastmod, meta: mut list } = page;
                        list.push(meta);
                        let page = PageSerde { url, lastmod, meta: list };
                        assert(page@.meta =~= before.meta.push(
                            meta_of(event@->StartElement_attributes),
                        ));
                        Scan::Skip { pages, page: Some(page), depth: 1 }
                    } else {
                        Scan::Skip { pages, page: Some(page), depth: 1 }
                    }
                },
                XmlEvent::Characters(_) => Scan::Page { pages, page },
                XmlEvent::EndElement { .. } => {
                    let ghost before = page_views(pages@);
                    let ghost added = page@;
                    pages.push(page);
                    assert(page_views(pages@) =~= before.push(added));
                    Scan::Root { pages }
                },
                _ => unexpected(event),
            },
            Scan::Text { pages, page, field, depth } => match event {
                XmlEvent::StartElement { .. } => Scan::Text { pages, page, field, depth: depth + 1 },
                XmlEvent::Characters(text) => {
                    let PageSerde { url, lastmod, meta } = page;
                    match field {
                        TextField::Loc => match UrlSerde::parse(text.as_str()) {
                            Ok(u) => Scan::Skip {
                                pages,
                                page: Some(PageSerde { url: Some(u), lastmod, meta }),
                                depth,
                            },
                            Err(e) => Scan::Failed(e),
                        },
                        TextField::Lastmod => match DateTimeSerde::parse(text.as_str()) {
                            Ok(t) => Scan::Skip {
                                pages,
                                page: Some(PageSerde { url, lastmod: Some(t), meta }),
                                depth,
                            },
                            Err(e) => Scan::Failed(e),
                        },
                    }
                },
                _ => without_text(event),
            },
            Scan::Skip { pages, page, depth } => match event {
                XmlEvent::StartElement { .. } => Scan::Skip { pages, page, depth: depth + 1 },
                XmlEvent::EndElement { .. } => {
                    if depth <= 1 {
                        match page {
                            Some(p) => Scan::Page { pages, page: p },
                            None => Scan::Root { pages },
                        }
                    } else {
                        Scan::Skip { pages, page, depth: depth - 1 }
                    }
                },
                XmlEvent::EndDocument => unexpected(event),
                XmlEvent::Failure(_) => unexpected(event),
                _ => Scan::Skip { pages, page, depth },
            },
            Scan::Done { pages } => Scan::Done { pages },
            Scan::Failed(e) => Scan::Failed(e),
        }
    }
}

impl SitemapSerde {
    /// Reads the `urlset` element from the events of a document.
    ///
    /// Fails with `InvalidUrl` or `TimestampParseError` at the first `loc` or
    /// `lastmod` whose text is refused, and with `XmlSyntaxError` where the
    /// events are not those of a root element with its content.
    pub fn deserialize(events: &Vec<XmlEvent>) -> (r: Result<SitemapSerde, SitemapError>)
        ensures
            match r {
                Ok(s) => scan_document(event_views(events@)) == Ok::<_, Failure>(s@),
                Err(e) => scan_document(event_views(events@)) == Err::<Seq<PageSerdeView>, _>(e@),
            },
    {
        let ghost all = event_views(events@);
        let mut state = Scan::Start;
        let mut i: usize = 0;
        assert(all.skip(0) =~= all);
        while i < events.len()
            invariant
                i <= events.len(),
                all == event_views(events@),
                depth_of(state@) <= i,
                scan(state@, all.skip(i as int)) == scan(ScanView::Start, all),
            decreases events.len() - i,
        {
            proof {
                assert(all.skip(i as int)[0] == events@[i as int]@);
                assert(all.skip(i as int).skip(1) =~= all.skip(i + 1));
            }
            state = state.step(&events[i]);
            i += 1;
        }
        assert(all.skip(i as int).len() == 0);
        match state {
            Scan::Done { pages } => {
                let r = SitemapSerde { pages };
                assert(r@ =~= page_views(pages@));
                Ok(r)
            },
            Scan::Failed(e) => Err(e),
            _ => Err(
                SitemapError::XmlSyntaxError {
                    reason: UNFINISHED.to_owned(),
                },
            ),
        }
    }
}

} // verus!

//! Sitemaps to XML documents and back.

use crate::error::{Failure, SitemapError};
use crate::events::{
    all_accepted, event_views, read_events, write_events, xml_events, xml_text, XmlEventView,
};
use crate::order::views;
use crate::sitemap::{is_exact, is_exact_page, is_plain_hash, Page, PageView, Sitemap};
use crate::text::{lemma_trim_is_trimmed, str_eq, trim, trim_str};
use crate::wire::{
    document_events, scan_document, Meta, MetaView, PageSerde, PageSerdeView, SitemapSerde,
    HASH_META_NAME,
};
use vstd::prelude::*;
use vstd::string::StrSliceExecFns;

verus! {

/// The number of characters of a content hash.
pub const HASH_LENGTH: usize = 32;

/// The `meta` element carries a content hash: its name, without the white
/// space around it, is `HASH_META_NAME`, and its content, without the white
/// space around it, has `HASH_LENGTH` characters.
pub open spec fn is_hash_meta(meta: MetaView) -> bool {
    trim(meta.name) == HASH_META_NAME@ && trim(meta.content).len() == HASH_LENGTH
}

/// The content hash that `meta` elements carry: that of the first of them
/// that carries one.
pub open spec fn recognized_hash(meta: Seq<MetaView>) -> Option<Seq<char>>
    decreases meta.len(),
{
    if meta.len() == 0 {
        None
    } else if is_hash_meta(meta[0]) {
        Some(trim(meta[0].content))
    } else {
        recognized_hash(meta.skip(1))
    }
}

/// The page that a `url` element describes; `MissingLocation` where it has no `loc`.
pub open spec fn page_of(element: PageSerdeView) -> Result<PageView, Failure> {
    match element.url {
        Some(url) => Ok(
            PageView { url, lastmod: element.lastmod, md5_hash: recognized_hash(element.meta) },
        ),
        None => Err(Failure::MissingLocation),
    }
}

/// The pages that `url` elements describe, or the failure of the first
/// element that describes none.
pub open spec fn pages_of(elements: Seq<PageSerdeView>) -> Result<Seq<PageView>, Failure>
    decreases elements.len(),
{
    if elements.len() == 0 {
        Ok(Seq::empty())
    } else {
        match pages_of(elements.drop_last()) {
            Ok(front) => match page_of(elements.last()) {
                Ok(page) => Ok(front.push(page)),
                Err(e) => Err(e),
            },
            Err(e) => Err(e),
        }
    }
}

/// The `url` element that describes a page.
pub open spec fn element_of(page: PageView) -> PageSerdeView {
    PageSerdeView {
        url: Some(page.url),
        lastmod: page.lastmod,
        meta: match page.md5_hash {
            Some(hash) => seq![MetaView { name: HASH_META_NAME@, content: hash }],
            None => Seq::empty(),
        },
    }
}

/// The `url` elements that describe the pages.
pub open spec fn elements_of(pages: Seq<PageView>) -> Seq<PageSerdeView> {
    Seq::new(pages.len(), |i: int| element_of(pages[i]))
}

/// The events of the document that describes the pages.
pub open spec fn encode(pages: Seq<PageView>) -> Seq<XmlEventView> {
    document_events(elements_of(pages))
}

/// The pages that the events of a document describe.
pub open spec fn decode(events: Seq<XmlEventView>) -> Result<Seq<PageView>, Failure> {
    match scan_document(events) {
        Ok(elements) => pages_of(elements),
        Err(e) => Err(e),
    }
}

impl PageSerde {
    /// The `url` element that describes a page.
    pub fn from(page: &Page) -> (r: PageSerde)
        ensures
            r@ == element_of(page@),
    {
        let mut meta: Vec<Meta> = Vec::new();
        match &page.md5_hash {
            Some(hash) => {
                meta.push(Meta::new(HASH_META_NAME.to_owned(), hash.clone()));
            },
            None => {},
        }
        let r = PageSerde {
            url: Some(page.url.clone()),
            lastmod: match &page.lastmod {
                Some(t) => Some(t.clone()),
                None => None,
            },
            meta,
        };
        assert(r@.meta =~= element_of(page@).meta);
        r
    }
}

impl SitemapSerde {
    /// The `urlset` element that describes a sitemap.
    pub fn from(sitemap: &Sitemap) -> (r: SitemapSerde)
        ensures
            r@ == elements_of(sitemap@),
    {
        let mut pages: Vec<PageSerde> = Vec::new();
        let mut i: usize = 0;
        while i < sitemap.pages.len()
            invariant
                i <= sitemap.pages.len(),
                pages.len() == i,
                forall|j: int| 0 <= j < i ==> (#[trigger] pages@[j])@ == element_of(sitemap@[j]),
            decreases sitemap.pages.len() - i,
        {
            assert(sitemap@[i as int] == sitemap.pages@[i as int]@);
            pages.push(PageSerde::from(&sitemap.pages[i]));
            i += 1;
        }
        let r = SitemapSerde { pages };
        assert(r@ =~= elements_of(sitemap@));
        r
    }
}

/// A recognized hash is a plain hash.
pub proof fn lemma_recognized_hash_is_plain(meta: Seq<MetaView>)
    ensures
        match recognized_hash(meta) {
            Some(h) => is_plain_hash(h),
            None => true,
        },
    decreases meta.len(),
{
    if meta.len() > 0 {
        if is_hash_meta(meta[0]) {
            lemma_trim_is_trimmed(meta[0].content);
        } else {
            lemma_recognized_hash_is_plain(meta.skip(1));
        }
    }
}

/// The content hash that `meta` elements carry.
fn find_hash(meta: &Vec<Meta>) -> (r: Option<String>)
    ensures
        match r {
            Some(h) => recognized_hash(Seq::new(meta@.len(), |i: int| meta@[i]@)) == Some(h@),
            None => recognized_hash(Seq::new(meta@.len(), |i: int| meta@[i]@)) is None,
        },
{
    let ghost all = Seq::new(meta@.len(), |i: int| meta@[i]@);
    let mut i: usize = 0;
    assert(all.skip(0) =~= all);
    while i < meta.len()
        invariant
            i <= meta.len(),
            all == Seq::new(meta@.len(), |i: int| meta@[i]@),
            recognized_hash(all) == recognized_hash(all.skip(i as int)),
        decreases meta.len() - i,
    {
        proof {
            assert(all.skip(i as int)[0] == meta@[i as int]@);
            assert(all.skip(i as int).skip(1) =~= all.skip(i + 1));
        }
        let name = trim_str(meta[i].name());
        let content = trim_str(meta[i].content());
        if str_eq(name, HASH_META_NAME) && content.unicode_len() == HASH_LENGTH {
            return Some(content.to_owned());
        }
        i += 1;
    }
    None
}

impl Page {
    /// The page that a `url` element describes. Fails with `MissingLocation`
    /// where the element has no `loc`.
    pub fn try_from(page_serde: PageSerde) -> (r: Result<Page, SitemapError>)
        ensures
            match r {
                Ok(page) => page_of(page_serde@) == Ok::<_, Failure>(page@) && is_exact_page(page@),
                Err(e) => page_of(page_serde@) == Err::<PageView, _>(e@),
            },
    {
        let hash = find_hash(&page_serde.meta);
        proof {
            lemma_recognized_hash_is_plain(page_serde@.meta);
        }
        let PageSerde { url, lastmod, meta } = page_serde;
        match url {
            Some(url) => {
                proof {
                    use_type_invariant(&url);
                    url.lemma_wf();
                    match &lastmod {
                        Some(t) => {
                            use_type_invariant(t);
                            t.lemma_wf();
                        },
                        None => {},
                    }
                }
                Ok(Page { url, lastmod, md5_hash: hash })
            },
            None => Err(SitemapError::MissingLocation),
        }
    }
}

impl Sitemap {
    /// The sitemap that a `urlset` element describes. Fails with the failure
    /// of the first `url` element that describes no page.
    pub fn try_from(sitemap_serde: SitemapSerde) -> (r: Result<Sitemap, SitemapError>)
        ensures
            match r {
                Ok(sitemap) => pages_of(sitemap_serde@) == Ok::<_, Failure>(sitemap@) && is_exact(
                    sitemap@,
                ),
                Err(e) => pages_of(sitemap_serde@) == Err::<Seq<PageView>, _>(e@),
            },
    {
        let ghost elements = sitemap_serde@;
        let mut rest = sitemap_serde.pages;
        let mut reversed: Vec<PageSerde> = Vec::new();
        // The elements are taken from the back, so turn them round first.
        while rest.len() > 0
            invariant
                rest.len() + reversed.len() == elements.len(),
                forall|j: int| 0 <= j < rest.len() ==> (#[trigger] rest@[j])@ == elements[j],
                forall|j: int|
                    0 <= j < reversed.len() ==> (#[trigger] reversed@[j])@ == elements[elements.len()
                        - 1 - j],
            decreases rest.len(),
        {
            let element = rest.pop().unwrap();
            reversed.push(element);
        }
        let mut pages: Vec<Page> = Vec::new();
        assert(elements.take(0) =~= Seq::empty());
        assert(views(pages@) =~= Seq::empty());
        while reversed.len() > 0
            invariant
                elements == sitemap_serde@,
                pages.len() + reversed.len() == elements.len(),
                forall|j: int|
                    0 <= j < reversed.len() ==> (#[trigger] reversed@[j])@ == elements[elements.len()
                        - 1 - j],
                pages_of(elements.take(pages.len() as int)) == Ok::<_, Failure>(views(pages@)),
                is_exact(views(pages@)),
            decreases reversed.len(),
        {
            let ghost n = pages.len() as int;
            let ghost before = views(pages@);
            let element = reversed.pop().unwrap();
            proof {
                assert(element@ == elements[n]);
                assert(elements.take(n + 1).drop_last() =~= elements.take(n));
                assert(elements.take(n + 1).last() == elements[n]);
            }
            match Page::try_from(element) {
                Ok(page) => {
                    let ghost added = page@;
                    pages.push(page);
                    assert(views(pages@) =~= before.push(added));
                    assert forall|j: int| 0 <= j < pages@.len() implies is_exact_page(
                        #[trigger] views(pages@)[j],
                    ) by {
                        if j < before.len() {
                            assert(views(pages@)[j] == before[j]);
                        }
                    }
                },
                Err(e) => {
                    proof {
                        assert(pages_of(elements.take(n + 1)) == Err::<Seq<PageView>, _>(e@));
                        lemma_pages_of_fails(elements, n + 1);
                    }
                    return Err(e);
                },
            }
        }
        assert(elements.take(elements.len() as int) =~= elements);
        Ok(Sitemap { pages })
    }

    /// Reads a sitemap from the bytes of an XML document.
    ///
    /// Fails wholly where it fails: with `XmlSyntaxError` where the document
    /// is not well formed or not a root element with its content, with
    /// `InvalidUrl` or `TimestampParseError` at the first `loc` or `lastmod`
    /// whose text is refused, and else with `MissingLocation` where a `url`
    /// element has no `loc`.
    pub fn deserialize(bytes: &[u8]) -> (r: Result<Sitemap, SitemapError>)
        ensures
            match r {
                Ok(sitemap) => decode(xml_events(bytes@)) == Ok::<_, Failure>(sitemap@) && is_exact(
                    sitemap@,
                ),
                Err(e) => decode(xml_events(bytes@)) == Err::<Seq<PageView>, _>(e@),
            },
    {
        let events = read_events(bytes);
        Sitemap::from_events(&events)
    }

    /// Reads a sitemap from the events of an XML document.
    pub fn from_events(events: &Vec<crate::events::XmlEvent>) -> (r: Result<Sitemap, SitemapError>)
        ensures
            match r {
                Ok(sitemap) => decode(event_views(events@)) == Ok::<_, Failure>(sitemap@)
                    && is_exact(sitemap@),
                Err(e) => decode(event_views(events@)) == Err::<Seq<PageView>, _>(e@),
            },
    {
        match SitemapSerde::deserialize(events) {
            Ok(elements) => Sitemap::try_from(elements),
            Err(e) => Err(e),
        }
    }

    /// The events of the XML document that describes the sitemap.
    pub fn to_events(&self) -> (r: Vec<crate::events::XmlEvent>)
        ensures
            event_views(r@) == encode(self@),
            all_accepted(encode(self@)),
    {
        SitemapSerde::from(self).events()
    }

    /// Writes the sitemap as an indented XML document in UTF-8, with an XML
    /// declaration. Every sitemap has its document: the writer takes each of
    /// the events.
    pub fn serialize(&self) -> (r: Result<Vec<u8>, SitemapError>)
        ensures
            r is Ok,
            r->Ok_0@ == xml_text(true, encode(self@)),
    {
        let events = self.to_events();
        write_events(&events, true)
    }
}

/// Where a front part of the elements fails, the whole fails in the same way.
proof fn lemma_pages_of_fails(elements: Seq<PageSerdeView>, n: int)
    requires
        0 <= n <= elements.len(),
        pages_of(elements.take(n)) is Err,
    ensures
        pages_of(elements) == pages_of(elements.take(n)),
    decreases elements.len() - n,
{
    if n < elements.len() {
        assert(elements.take(n + 1).drop_last() =~= elements.take(n));
        lemma_pages_of_fails(elements, n + 1);
    } else {
        assert(elements.take(n) =~= elements);
    }
}

} // verus!

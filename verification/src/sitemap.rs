//! Sitemap documents, their canonical order, and their reconciliation with a
//! document published earlier.

use crate::index::UrlIndex;
use crate::order::{sort_in_order, sorted, views, Keyed, UrlKey};
use crate::text::trim;
use crate::timestamp::{is_timestamp, DateTimeSerde};
use crate::web_url::{is_canonical, UrlSerde, UrlView};
use vstd::prelude::*;
use vstd::string::StrSliceExecFns;

verus! {

/// A page as contracts see it.
pub struct PageView {
    pub url: UrlView,
    /// Seconds after the Unix epoch.
    pub lastmod: Option<int>,
    pub md5_hash: Option<Seq<char>>,
}

impl Keyed for PageView {
    open spec fn key(self) -> Seq<char> {
        self.url.text
    }
}

impl Keyed for UrlView {
    open spec fn key(self) -> Seq<char> {
        self.text
    }
}

/// One page of a website.
#[derive(Debug, PartialEq, Eq)]
pub struct Page {
    pub url: UrlSerde,
    /// When the content last changed.
    pub lastmod: Option<DateTimeSerde>,
    /// The digest of the content: 32 lowercase hexadecimal digits.
    pub md5_hash: Option<String>,
}

impl View for Page {
    type V = PageView;

    open spec fn view(&self) -> PageView {
        PageView {
            url: self.url@,
            lastmod: match self.lastmod {
                Some(t) => Some(t@),
                None => None,
            },
            md5_hash: match self.md5_hash {
                Some(h) => Some(h@),
                None => None,
            },
        }
    }
}

impl Clone for Page {
    fn clone(&self) -> (r: Self)
        ensures
            r@ == self@,
    {
        Page {
            url: self.url.clone(),
            lastmod: match &self.lastmod {
                Some(t) => Some(t.clone()),
                None => None,
            },
            md5_hash: match &self.md5_hash {
                Some(h) => Some(h.clone()),
                None => None,
            },
        }
    }
}

impl UrlKey for Page {
    fn url_key(&self) -> (r: &str) {
        self.url.as_str()
    }
}

impl UrlKey for UrlSerde {
    fn url_key(&self) -> (r: &str) {
        self.as_str()
    }
}

/// Sitemap of the website.
#[derive(Debug, PartialEq, Eq)]
pub struct Sitemap {
    pub pages: Vec<Page>,
}

impl View for Sitemap {
    type V = Seq<PageView>;

    open spec fn view(&self) -> Seq<PageView> {
        views(self.pages@)
    }
}

/// A hash as it stands in a document: 32 characters without white space
/// around them.
pub open spec fn is_plain_hash(hash: Seq<char>) -> bool {
    hash.len() == 32 && trim(hash) == hash
}

/// A page that a document can hold as it is: its URL is in canonical form,
/// its timestamp has a text, and its hash is a plain hash.
pub open spec fn is_exact_page(page: PageView) -> bool {
    &&& is_canonical(page.url)
    &&& match page.lastmod {
        Some(t) => is_timestamp(t),
        None => true,
    }
    &&& match page.md5_hash {
        Some(h) => is_plain_hash(h),
        None => true,
    }
}

/// Pages that a document can hold as they are.
pub open spec fn is_exact(pages: Seq<PageView>) -> bool {
    forall|i: int| 0 <= i < pages.len() ==> is_exact_page(#[trigger] pages[i])
}

impl Page {
    /// A page has a URL in canonical form and a timestamp with a text; it is
    /// exact where its hash is a plain hash.
    pub fn is_exact(&self) -> (r: bool)
        ensures
            r == is_exact_page(self@),
    {
        proof {
            use_type_invariant(&self.url);
            self.url.lemma_wf();
            match &self.lastmod {
                Some(t) => {
                    use_type_invariant(t);
                    t.lemma_wf();
                },
                None => {},
            }
        }
        match &self.md5_hash {
            Some(h) => {
                let trimmed = crate::text::trim_str(h.as_str());
                h.as_str().unicode_len() == 32 && crate::text::str_eq(trimmed, h.as_str())
            },
            None => true,
        }
    }
}

/// How the pages of a fresh sitemap relate to a sitemap published earlier.
/// Each list is sorted by URL.
#[derive(Debug, PartialEq, Eq)]
pub struct UpdateInfo {
    /// Pages that the earlier sitemap does not have.
    pub new_pages: Vec<UrlSerde>,
    /// Pages of the earlier sitemap that the fresh one does not have.
    pub removed_pages: Vec<UrlSerde>,
    /// Pages whose content is the same as before.
    pub unchanged_pages: Vec<UrlSerde>,
    /// Pages whose content changed, or cannot be shown to be the same.
    pub updated_pages: Vec<UrlSerde>,
}

/// What became of a page of the fresh sitemap.
pub enum PageStatus {
    New,
    Unchanged,
    Updated,
}

/// The last place in `pages` at which `url` stands.
pub open spec fn last_index_of(pages: Seq<PageView>, url: Seq<char>) -> Option<int>
    decreases pages.len(),
{
    if pages.len() == 0 {
        None
    } else if pages.last().url.text == url {
        Some(pages.len() - 1)
    } else {
        last_index_of(pages.drop_last(), url)
    }
}

/// No two pages have the same URL.
pub open spec fn unique_urls(pages: Seq<PageView>) -> bool {
    forall|i: int, j: int|
        0 <= i < j < pages.len() ==> (#[trigger] pages[i]).url.text != (#[trigger] pages[j]).url.text
}

/// The earlier page shows that the content of the fresh page is the same:
/// it has a timestamp and a hash, and the hash is that of the fresh page.
pub open spec fn same_content(earlier: PageView, fresh: PageView) -> bool {
    earlier.md5_hash is Some && earlier.lastmod is Some && earlier.md5_hash == fresh.md5_hash
}

/// The status of page `i` of `fresh`. A page is matched with the last page
/// of `earlier` that has its URL, and only the first page of `fresh` with
/// that URL is matched.
pub open spec fn status_of(fresh: Seq<PageView>, earlier: Seq<PageView>, i: int) -> PageStatus {
    let url = fresh[i].url.text;
    if last_index_of(fresh.take(i), url) is Some {
        PageStatus::New
    } else {
        match last_index_of(earlier, url) {
            None => PageStatus::New,
            Some(k) => if same_content(earlier[k], fresh[i]) {
                PageStatus::Unchanged
            } else {
                PageStatus::Updated
            },
        }
    }
}

/// Page `i` of `fresh` after reconciliation: an unchanged page takes the
/// timestamp of the earlier page, every other page stays as it is.
pub open spec fn combined_page(fresh: Seq<PageView>, earlier: Seq<PageView>, i: int) -> PageView {
    if status_of(fresh, earlier, i) is Unchanged {
        PageView {
            lastmod: earlier[last_index_of(earlier, fresh[i].url.text).unwrap()].lastmod,
            ..fresh[i]
        }
    } else {
        fresh[i]
    }
}

/// The fresh pages after reconciliation.
pub open spec fn combined(fresh: Seq<PageView>, earlier: Seq<PageView>) -> Seq<PageView> {
    Seq::new(fresh.len(), |i: int| combined_page(fresh, earlier, i))
}

/// The URLs of those among the first `n` pages of `fresh` that have the
/// status `status`, in the order of the pages.
pub open spec fn urls_with_status_among(
    fresh: Seq<PageView>,
    earlier: Seq<PageView>,
    status: PageStatus,
    n: int,
) -> Seq<UrlView>
    decreases n,
{
    if n <= 0 {
        Seq::empty()
    } else {
        let front = urls_with_status_among(fresh, earlier, status, n - 1);
        if status_of(fresh, earlier, n - 1) == status {
            front.push(fresh[n - 1].url)
        } else {
            front
        }
    }
}

/// Page `k` of `earlier` is the one that stands for its URL, and `fresh` has
/// no page with that URL.
pub open spec fn is_removed(fresh: Seq<PageView>, earlier: Seq<PageView>, k: int) -> bool {
    let url = earlier[k].url.text;
    last_index_of(earlier, url) == Some(k) && last_index_of(fresh, url) is None
}

/// The URLs of those among the first `n` pages of `earlier` that are removed,
/// in the order of the pages.
pub open spec fn removed_urls_among(
    fresh: Seq<PageView>,
    earlier: Seq<PageView>,
    n: int,
) -> Seq<UrlView>
    decreases n,
{
    if n <= 0 {
        Seq::empty()
    } else {
        let front = removed_urls_among(fresh, earlier, n - 1);
        if is_removed(fresh, earlier, n - 1) {
            front.push(earlier[n - 1].url)
        } else {
            front
        }
    }
}

/// The URLs of the pages of `fresh` that have the status `status`, sorted.
pub open spec fn urls_with_status(
    fresh: Seq<PageView>,
    earlier: Seq<PageView>,
    status: PageStatus,
) -> Seq<UrlView> {
    sorted(urls_with_status_among(fresh, earlier, status, fresh.len() as int))
}

/// The URLs of `earlier` that `fresh` does not have, each once, sorted.
pub open spec fn removed_urls(fresh: Seq<PageView>, earlier: Seq<PageView>) -> Seq<UrlView> {
    sorted(removed_urls_among(fresh, earlier, earlier.len() as int))
}

/// An index found by `last_index_of` lies in the sequence and holds the URL,
/// and no later page holds it.
pub proof fn lemma_last_index_of(pages: Seq<PageView>, url: Seq<char>)
    ensures
        match last_index_of(pages, url) {
            Some(k) => 0 <= k < pages.len() && pages[k].url.text == url && forall|j: int|
                k < j < pages.len() ==> (#[trigger] pages[j]).url.text != url,
            None => forall|j: int| 0 <= j < pages.len() ==> (#[trigger] pages[j]).url.text != url,
        },
    decreases pages.len(),
{
    if pages.len() > 0 && pages.last().url.text != url {
        lemma_last_index_of(pages.drop_last(), url);
        match last_index_of(pages, url) {
            Some(k) => {
                assert(pages[k] == pages.drop_last()[k]);
                assert forall|j: int| k < j < pages.len() implies (#[trigger] pages[j]).url.text
                    != url by {
                    if j < pages.len() - 1 {
                        assert(pages[j] == pages.drop_last()[j]);
                    }
                }
            },
            None => {
                assert forall|j: int| 0 <= j < pages.len() implies (#[trigger] pages[j]).url.text
                    != url by {
                    if j < pages.len() - 1 {
                        assert(pages[j] == pages.drop_last()[j]);
                    }
                }
            },
        }
    }
}

fn same_hash(a: &Option<String>, b: &Option<String>) -> (r: bool)
    ensures
        r == (a is Some && b is Some && a.unwrap()@ == b.unwrap()@),
{
    match (a, b) {
        (Some(x), Some(y)) => *x == *y,
        _ => false,
    }
}

/// `marks` tells of each page of `earlier` whether it stands for its URL and
/// one of the first `i` pages of `fresh` has that URL.
spec fn marks_matched(marks: Seq<bool>, fresh: Seq<PageView>, earlier: Seq<PageView>, i: int) -> bool {
    &&& marks.len() == earlier.len()
    &&& forall|k: int|
        0 <= k < earlier.len() ==> (#[trigger] marks[k] <==> last_index_of(
            earlier,
            earlier[k].url.text,
        ) == Some(k) && last_index_of(fresh.take(i), earlier[k].url.text) is Some)
}

/// Whether a URL stands among the first `i + 1` pages is decided by page `i`
/// and the first `i` pages.
proof fn lemma_last_index_of_take(pages: Seq<PageView>, i: int, url: Seq<char>)
    requires
        0 <= i < pages.len(),
    ensures
        last_index_of(pages.take(i + 1), url) is Some <==> pages[i].url.text == url
            || last_index_of(pages.take(i), url) is Some,
{
    assert(pages.take(i + 1).last() == pages[i]);
    assert(pages.take(i + 1).drop_last() =~= pages.take(i));
}

impl Sitemap {
    /// Sorts the pages by URL, in the order of the serializations. Pages with
    /// the same URL keep their order.
    pub fn sort_by_url(&mut self)
        ensures
            final(self)@ == sorted(old(self)@),
    {
        sort_in_order(&mut self.pages);
    }

    /// Reconciles this fresh sitemap with the one published earlier. A page
    /// whose content is the same as before takes its earlier timestamp; no
    /// page is added, removed or moved. The result tells what became of each
    /// page, and which earlier pages are gone.
    pub fn combine_with_old_sitemap(&mut self, old_sitemap: &Sitemap) -> (info: UpdateInfo)
        ensures
            final(self)@ == combined(old(self)@, old_sitemap@),
            views(info.new_pages@) == urls_with_status(old(self)@, old_sitemap@, PageStatus::New),
            views(info.unchanged_pages@) == urls_with_status(
                old(self)@,
                old_sitemap@,
                PageStatus::Unchanged,
            ),
            views(info.updated_pages@) == urls_with_status(
                old(self)@,
                old_sitemap@,
                PageStatus::Updated,
            ),
            views(info.removed_pages@) == removed_urls(old(self)@, old_sitemap@),
    {
        let ghost fresh = self@;
        let ghost earlier = old_sitemap@;
        let n = self.pages.len();
        let m = old_sitemap.pages.len();
        let mut marks: Vec<bool> = Vec::new();
        while marks.len() < m
            invariant
                marks.len() <= m,
                forall|k: int| 0 <= k < marks.len() ==> !marks@[k],
            decreases m - marks.len(),
        {
            marks.push(false);
        }
        let index = UrlIndex::new(&old_sitemap.pages);
        let mut new_pages: Vec<UrlSerde> = Vec::new();
        let mut unchanged_pages: Vec<UrlSerde> = Vec::new();
        let mut updated_pages: Vec<UrlSerde> = Vec::new();
        let mut i: usize = 0;
        while i < n
            invariant
                i <= n,
                n == self.pages.len(),
                n == fresh.len(),
                m == old_sitemap.pages.len(),
                earlier == old_sitemap@,
                index.pages() == earlier,
                forall|j: int| 0 <= j < i ==> #[trigger] self@[j] == combined_page(fresh, earlier, j),
                forall|j: int| i <= j < n ==> #[trigger] self@[j] == fresh[j],
                marks_matched(marks@, fresh, earlier, i as int),
                views(new_pages@) == urls_with_status_among(
                    fresh,
                    earlier,
                    PageStatus::New,
                    i as int,
                ),
                views(unchanged_pages@) == urls_with_status_among(
                    fresh,
                    earlier,
                    PageStatus::Unchanged,
                    i as int,
                ),
                views(updated_pages@) == urls_with_status_among(
                    fresh,
                    earlier,
                    PageStatus::Updated,
                    i as int,
                ),
            decreases n - i,
        {
            let ghost url = fresh[i as int].url.text;
            let ghost before = self@;
            let ghost marks_before = marks@;
            assert(self@[i as int] == fresh[i as int]);
            assert(self@[i as int] == self.pages@[i as int]@);
            let found = index.find_last(&self.pages[i].url);
            proof {
                lemma_last_index_of(earlier, url);
                assert forall|k: int| 0 <= k < earlier.len() implies (last_index_of(
                    fresh.take(i + 1),
                    earlier[k].url.text,
                ) is Some <==> fresh[i as int].url.text == earlier[k].url.text || last_index_of(
                    fresh.take(i as int),
                    earlier[k].url.text,
                ) is Some) by {
                    lemma_last_index_of_take(fresh, i as int, earlier[k].url.text);
                }
            }
            let page_url = self.pages[i].url.clone();
            let ghost new_before = views(new_pages@);
            let ghost unchanged_before = views(unchanged_pages@);
            let ghost updated_before = views(updated_pages@);
            let mut matched: Option<usize> = None;
            match found {
                Some(k) => {
                    if !marks[k] {
                        matched = Some(k);
                    }
                },
                None => {},
            }
            match matched {
                Some(k) => {
                    assert(last_index_of(fresh.take(i as int), url) is None);
                    assert(earlier[k as int] == old_sitemap.pages@[k as int]@);
                    marks.set(k, true);
                    let earlier_page = &old_sitemap.pages[k];
                    if earlier_page.lastmod.is_some() && same_hash(
                        &earlier_page.md5_hash,
                        &self.pages[i].md5_hash,
                    ) {
                        assert(status_of(fresh, earlier, i as int) is Unchanged);
                        let lastmod = match &earlier_page.lastmod {
                            Some(t) => Some(t.clone()),
                            None => None,
                        };
                        self.pages[i].lastmod = lastmod;
                        unchanged_pages.push(page_url);
                        assert(views(unchanged_pages@) =~= unchanged_before.push(fresh[i as int].url));
                    } else {
                        assert(status_of(fresh, earlier, i as int) is Updated);
                        updated_pages.push(page_url);
                        assert(views(updated_pages@) =~= updated_before.push(fresh[i as int].url));
                    }
                },
                None => {
                    assert(status_of(fresh, earlier, i as int) is New);
                    new_pages.push(page_url);
                    assert(views(new_pages@) =~= new_before.push(fresh[i as int].url));
                },
            }
            proof {
                assert(self@[i as int] == combined_page(fresh, earlier, i as int));
                assert forall|j: int| 0 <= j < i + 1 implies #[trigger] self@[j] == combined_page(
                    fresh,
                    earlier,
                    j,
                ) by {
                    if j < i {
                        assert(self@[j] == before[j]);
                    }
                }
                assert forall|j: int| i + 1 <= j < n implies #[trigger] self@[j] == fresh[j] by {
                    assert(self@[j] == before[j]);
                }
                assert(marks_matched(marks@, fresh, earlier, i + 1));
            }
            i += 1;
        }
        let mut removed_pages: Vec<UrlSerde> = Vec::new();
        let mut k: usize = 0;
        assert(fresh.take(n as int) =~= fresh);
        while k < m
            invariant
                k <= m,
                m == old_sitemap.pages.len(),
                earlier == old_sitemap@,
                index.pages() == earlier,
                marks_matched(marks@, fresh, earlier, fresh.len() as int),
                fresh.take(fresh.len() as int) == fresh,
                views(removed_pages@) == removed_urls_among(fresh, earlier, k as int),
            decreases m - k,
        {
            let ghost removed_before = views(removed_pages@);
            assert(earlier[k as int] == old_sitemap.pages@[k as int]@);
            let mut gone = false;
            if !marks[k] {
                match index.find_last(&old_sitemap.pages[k].url) {
                    Some(last) => {
                        gone = last == k;
                    },
                    None => {},
                }
            }
            proof {
                lemma_last_index_of(fresh, earlier[k as int].url.text);
                assert(gone == is_removed(fresh, earlier, k as int));
            }
            if gone {
                removed_pages.push(old_sitemap.pages[k].url.clone());
                assert(views(removed_pages@) =~= removed_before.push(earlier[k as int].url));
            }
            k += 1;
        }
        sort_in_order(&mut new_pages);
        sort_in_order(&mut unchanged_pages);
        sort_in_order(&mut updated_pages);
        sort_in_order(&mut removed_pages);
        assert(self@ =~= combined(fresh, earlier));
        UpdateInfo { new_pages, removed_pages, unchanged_pages, updated_pages }
    }
}

} // verus!

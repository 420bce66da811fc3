//! Moving a sitemap to another domain.

use crate::error::{Failure, SitemapError};
use crate::sitemap::{is_exact, is_exact_page, PageView, Sitemap};
use crate::text::str_eq;
use crate::web_url::{invalid_url, rewritten, url_canonical, UrlSerde, UrlView};
use vstd::prelude::*;

verus! {

/// Why a page is refused whose URL cannot take the parts of the new domain.
pub const CANNOT_MOVE: &'static str = "the URL cannot take the new domain";

/// The URL that names the new domain: an absolute URL with the scheme `http`
/// or `https`.
pub open spec fn origin_of(text: Seq<char>) -> Result<UrlView, Failure> {
    match url_canonical(text) {
        Some(origin) => if origin.scheme == "http"@ || origin.scheme == "https"@ {
            Ok(origin)
        } else {
            Err(Failure::UnsupportedScheme(origin.scheme))
        },
        None => Err(invalid_url(text)),
    }
}

/// The pages with the scheme, host and port of `origin` in their URLs, or
/// the failure of the first page whose URL cannot take them: `InvalidUrl`
/// with that URL.
pub open spec fn with_origin(pages: Seq<PageView>, origin: UrlView) -> Result<
    Seq<PageView>,
    Failure,
>
    decreases pages.len(),
{
    if pages.len() == 0 {
        Ok(Seq::empty())
    } else {
        match with_origin(pages.drop_last(), origin) {
            Ok(front) => match rewritten(pages.last().url, origin) {
                Some(url) => Ok(front.push(PageView { url, ..pages.last() })),
                None => Err(Failure::InvalidUrl(pages.last().url.text, CANNOT_MOVE@)),
            },
            Err(e) => Err(e),
        }
    }
}

/// The pages moved to the domain that `text` names.
pub open spec fn domain_updated(pages: Seq<PageView>, text: Seq<char>) -> Result<
    Seq<PageView>,
    Failure,
> {
    match origin_of(text) {
        Ok(origin) => with_origin(pages, origin),
        Err(e) => Err(e),
    }
}

/// Where a front part of the pages cannot move, the whole fails in the same way.
proof fn lemma_with_origin_fails(pages: Seq<PageView>, origin: UrlView, n: int)
    requires
        0 <= n <= pages.len(),
        with_origin(pages.take(n), origin) is Err,
    ensures
        with_origin(pages, origin) == with_origin(pages.take(n), origin),
    decreases pages.len() - n,
{
    if n < pages.len() {
        assert(pages.take(n + 1).drop_last() =~= pages.take(n));
        lemma_with_origin_fails(pages, origin, n + 1);
    } else {
        assert(pages.take(n) =~= pages);
    }
}

/// Moved pages are as many as before, and each differs from the page before
/// in the scheme, host and port of its URL at most: path, query and fragment
/// stand as they stood, and so do timestamp and hash.
pub proof fn lemma_with_origin_keeps_paths(pages: Seq<PageView>, origin: UrlView)
    requires
        with_origin(pages, origin) is Ok,
    ensures
        with_origin(pages, origin)->Ok_0.len() == pages.len(),
        forall|i: int|
            0 <= i < pages.len() ==> {
                let moved = #[trigger] with_origin(pages, origin)->Ok_0[i];
                &&& moved.url.path_and_after == pages[i].url.path_and_after
                &&& moved.url.scheme == origin.scheme
                &&& moved.url.host == origin.host
                &&& moved.url.port == origin.port
                &&& moved.lastmod == pages[i].lastmod
                &&& moved.md5_hash == pages[i].md5_hash
                &&& rewritten(pages[i].url, origin) == Some(moved.url)
            },
    decreases pages.len(),
{
    if pages.len() > 0 {
        lemma_with_origin_keeps_paths(pages.drop_last(), origin);
        let front = with_origin(pages.drop_last(), origin)->Ok_0;
        let moved = with_origin(pages, origin)->Ok_0;
        assert forall|i: int| 0 <= i < pages.len() implies {
            let m = #[trigger] moved[i];
            &&& m.url.path_and_after == pages[i].url.path_and_after
            &&& m.url.scheme == origin.scheme
            &&& m.url.host == origin.host
            &&& m.url.port == origin.port
            &&& m.lastmod == pages[i].lastmod
            &&& m.md5_hash == pages[i].md5_hash
            &&& rewritten(pages[i].url, origin) == Some(m.url)
        } by {
            if i < pages.len() - 1 {
                assert(moved[i] == front[i]);
                assert(pages.drop_last()[i] == pages[i]);
            }
        }
    }
}

impl Sitemap {
    /// Moves every page to the domain that `new_origin` names: the scheme,
    /// host and port of each URL become those of `new_origin`, while path,
    /// query and fragment stay.
    ///
    /// Fails with `InvalidUrl` where `new_origin` is no absolute URL, with
    /// `UnsupportedScheme` where its scheme is neither `http` nor `https`,
    /// and with `InvalidUrl` at the first page whose URL cannot take the new
    /// parts. Where it fails, the sitemap stays as it is.
    pub fn update_domain(&mut self, new_origin: &str) -> (r: Result<(), SitemapError>)
        ensures
            match r {
                Ok(()) => domain_updated(old(self)@, new_origin@) == Ok::<_, Failure>(final(self)@),
                Err(e) => domain_updated(old(self)@, new_origin@) == Err::<Seq<PageView>, _>(e@)
                    && final(self)@ == old(self)@,
            },
    {
        let origin = match UrlSerde::parse(new_origin) {
            Ok(origin) => origin,
            Err(e) => {
                return Err(e);
            },
        };
        if !str_eq(origin.scheme(), "http") && !str_eq(origin.scheme(), "https") {
            return Err(SitemapError::UnsupportedScheme { scheme: origin.scheme().to_owned() });
        }
        let ghost before = self@;
        let n = self.pages.len();
        let mut urls: Vec<UrlSerde> = Vec::new();
        let mut i: usize = 0;
        assert(before.take(0) =~= Seq::empty());
        while i < n
            invariant
                i <= n,
                n == self.pages.len(),
                before == self@,
                before == old(self)@,
                origin_of(new_origin@) == Ok::<_, Failure>(origin@),
                urls.len() == i,
                with_origin(before.take(i as int), origin@) is Ok,
                forall|j: int|
                    0 <= j < i ==> (#[trigger] urls@[j])@ == with_origin(
                        before.take(i as int),
                        origin@,
                    )->Ok_0[j].url,
            decreases n - i,
        {
            proof {
                assert(before[i as int] == self.pages@[i as int]@);
                assert(before.take(i + 1).drop_last() =~= before.take(i as int));
                assert(before.take(i + 1).last() == before[i as int]);
                lemma_with_origin_keeps_paths(before.take(i as int), origin@);
            }
            match self.pages[i].url.with_origin_of(&origin) {
                Some(url) => {
                    urls.push(url);
                },
                None => {
                    proof {
                        assert(with_origin(before.take(i + 1), origin@) == Err::<Seq<PageView>, _>(
                            Failure::InvalidUrl(before[i as int].url.text, CANNOT_MOVE@),
                        ));
                        lemma_with_origin_fails(before, origin@, i + 1);
                    }
                    return Err(
                        SitemapError::InvalidUrl {
                            text: self.pages[i].url.as_str().to_owned(),
                            reason: CANNOT_MOVE.to_owned(),
                        },
                    );
                },
            }
            i += 1;
        }
        assert(before.take(n as int) =~= before);
        let ghost moved = with_origin(before, origin@)->Ok_0;
        proof {
            lemma_with_origin_keeps_paths(before, origin@);
        }
        let mut k: usize = 0;
        while k < n
            invariant
                k <= n,
                n == self.pages.len(),
                n == urls.len(),
                before == old(self)@,
                origin_of(new_origin@) == Ok::<_, Failure>(origin@),
                n == before.len(),
                moved.len() == n,
                with_origin(before, origin@) == Ok::<_, Failure>(moved),
                forall|j: int| 0 <= j < n ==> (#[trigger] urls@[j])@ == moved[j].url,
                forall|j: int|
                    0 <= j < n ==> (#[trigger] moved[j]).lastmod == before[j].lastmod && moved[j].md5_hash
                        == before[j].md5_hash,
                forall|j: int| 0 <= j < k ==> #[trigger] self@[j] == moved[j],
                forall|j: int| k <= j < n ==> #[trigger] self@[j] == before[j],
            decreases n - k,
        {
            let ghost current = self@;
            assert(self@[k as int] == before[k as int]);
            self.pages[k].url = urls[k].clone();
            proof {
                assert(self@[k as int] == moved[k as int]);
                assert forall|j: int| 0 <= j < k + 1 implies #[trigger] self@[j] == moved[j] by {
                    if j < k {
                        assert(self@[j] == current[j]);
                    }
                }
                assert forall|j: int| k + 1 <= j < n implies #[trigger] self@[j] == before[j] by {
                    assert(self@[j] == current[j]);
                }
            }
            k += 1;
        }
        assert(self@ =~= moved);
        Ok(())
    }
}

/// Moving exact pages to another domain gives exact pages.
pub proof fn lemma_domain_updated_is_exact(pages: Seq<PageView>, new_origin: Seq<char>)
    requires
        is_exact(pages),
        domain_updated(pages, new_origin) is Ok,
    ensures
        is_exact(domain_updated(pages, new_origin)->Ok_0),
{
    let origin = origin_of(new_origin)->Ok_0;
    let moved = with_origin(pages, origin)->Ok_0;
    lemma_with_origin_keeps_paths(pages, origin);
    assert forall|i: int| 0 <= i < moved.len() implies is_exact_page(#[trigger] moved[i]) by {
        assert(is_exact_page(pages[i]));
        assert(rewritten(pages[i].url, origin) == Some(moved[i].url));
    }
}

/// Moving a sitemap to another domain changes scheme, host and port of its
/// URLs at most: every page keeps path, query and fragment, timestamp and hash.
pub proof fn lemma_update_domain_keeps_paths(pages: Seq<PageView>, new_origin: Seq<char>)
    requires
        domain_updated(pages, new_origin) is Ok,
    ensures
        domain_updated(pages, new_origin)->Ok_0.len() == pages.len(),
        forall|i: int|
            0 <= i < pages.len() ==> {
                let moved = #[trigger] domain_updated(pages, new_origin)->Ok_0[i];
                &&& moved.url.path_and_after == pages[i].url.path_and_after
                &&& moved.url.scheme == origin_of(new_origin)->Ok_0.scheme
                &&& moved.url.host == origin_of(new_origin)->Ok_0.host
                &&& moved.url.port == origin_of(new_origin)->Ok_0.port
                &&& moved.lastmod == pages[i].lastmod
                &&& moved.md5_hash == pages[i].md5_hash
            },
{
    lemma_with_origin_keeps_paths(pages, origin_of(new_origin)->Ok_0);
}

} // verus!

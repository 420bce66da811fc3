//! Content hashes: how the body of a page is normalized and digested.

use crate::error::{Failure, SitemapError};
use crate::order::views;
use crate::sitemap::{is_exact, is_exact_page, is_plain_hash, Page, PageView, Sitemap};
use crate::text::{lemma_trim_identity, trim, trim_str};
use crate::timestamp::DateTimeSerde;
use crate::web_url::{invalid_url, url_canonical, UrlSerde};
use vstd::prelude::*;
use vstd::string::StringExecFns;
use vstd::utf8::encode_utf8;

verus! {

/// A lowercase hexadecimal digit.
pub open spec fn is_hex_digit(c: char) -> bool {
    ('0' <= c && c <= '9') || ('a' <= c && c <= 'f')
}

/// A content hash as the library makes it: 32 lowercase hexadecimal digits.
pub open spec fn is_digest(hash: Seq<char>) -> bool {
    hash.len() == 32 && forall|i: int| 0 <= i < hash.len() ==> is_hex_digit(#[trigger] hash[i])
}

/// A digest is a plain hash.
pub proof fn lemma_digest_is_plain(hash: Seq<char>)
    requires
        is_digest(hash),
    ensures
        is_plain_hash(hash),
{
    assert(is_hex_digit(hash[0]));
    assert(is_hex_digit(hash.last()));
    lemma_trim_identity(hash);
}

/// The bytes with every carriage return that a line feed follows taken out.
pub open spec fn unix_lines(bytes: Seq<u8>) -> Seq<u8>
    decreases bytes.len(),
{
    if bytes.len() == 0 {
        bytes
    } else if bytes.len() >= 2 && bytes[0] == 13 && bytes[1] == 10 {
        unix_lines(bytes.skip(1))
    } else {
        seq![bytes[0]] + unix_lines(bytes.skip(1))
    }
}

/// The bytes of a body that are digested: the body without the white space
/// around it, in UTF-8, with Unix line ends.
pub open spec fn normalized(body: Seq<char>) -> Seq<u8> {
    unix_lines(encode_utf8(trim(body)))
}

/// The lowercase hexadecimal digit of a number below 16.
pub open spec fn hex_digit(n: u8) -> char {
    if n < 10 {
        (48 + n) as char
    } else {
        (87 + n) as char
    }
}

/// Two lowercase hexadecimal digits for each byte.
pub open spec fn hex_text(bytes: Seq<u8>) -> Seq<char>
    decreases bytes.len(),
{
    if bytes.len() == 0 {
        Seq::empty()
    } else {
        hex_text(bytes.drop_last()).push(hex_digit(bytes.last() / 16)).push(
            hex_digit(bytes.last() % 16),
        )
    }
}

/// The MD5 digest of a sequence of bytes.
pub uninterp spec fn md5_of(bytes: Seq<u8>) -> Seq<u8>;

/// The content hash of a body.
pub open spec fn hash_of(body: Seq<char>) -> Seq<char> {
    hex_text(md5_of(normalized(body)))
}

/// Calls `md5::compute` and takes the 16 bytes of the digest. The contract
/// gives them their name and says that they are 16.
#[verifier::external_body]
fn md5_digest(bytes: &[u8]) -> (r: Vec<u8>)
    ensures
        r@ == md5_of(bytes@),
        r@.len() == 16,
{
    md5::compute(bytes).0.to_vec()
}

/// The hexadecimal text of bytes has two digits for each byte.
pub proof fn lemma_hex_text(bytes: Seq<u8>)
    ensures
        hex_text(bytes).len() == 2 * bytes.len(),
        forall|i: int| 0 <= i < hex_text(bytes).len() ==> is_hex_digit(#[trigger] hex_text(bytes)[i]),
    decreases bytes.len(),
{
    if bytes.len() > 0 {
        lemma_hex_text(bytes.drop_last());
        let high = bytes.last() / 16;
        let low = bytes.last() % 16;
        assert(is_hex_digit(hex_digit(high)));
        assert(is_hex_digit(hex_digit(low)));
    }
}

fn hex_digit_str(n: u8) -> (r: &'static str)
    requires
        n < 16,
    ensures
        r@ == seq![hex_digit(n)],
{
    proof {
        reveal_strlit("0");
        reveal_strlit("1");
        reveal_strlit("2");
        reveal_strlit("3");
        reveal_strlit("4");
        reveal_strlit("5");
        reveal_strlit("6");
        reveal_strlit("7");
        reveal_strlit("8");
        reveal_strlit("9");
        reveal_strlit("a");
        reveal_strlit("b");
        reveal_strlit("c");
        reveal_strlit("d");
        reveal_strlit("e");
        reveal_strlit("f");
    }
    let r = match n {
        0 => "0",
        1 => "1",
        2 => "2",
        3 => "3",
        4 => "4",
        5 => "5",
        6 => "6",
        7 => "7",
        8 => "8",
        9 => "9",
        10 => "a",
        11 => "b",
        12 => "c",
        13 => "d",
        14 => "e",
        _ => "f",
    };
    assert(r@ =~= seq![hex_digit(n)]);
    r
}

/// Two lowercase hexadecimal digits for each byte.
pub fn hex_string(bytes: &[u8]) -> (r: String)
    ensures
        r@ == hex_text(bytes@),
{
    let mut out = String::new();
    let mut i: usize = 0;
    assert(bytes@.take(0) =~= Seq::empty());
    while i < bytes.len()
        invariant
            i <= bytes.len(),
            out@ == hex_text(bytes@.take(i as int)),
        decreases bytes.len() - i,
    {
        let b = bytes[i];
        proof {
            assert(bytes@.take(i + 1).drop_last() =~= bytes@.take(i as int));
            assert(bytes@.take(i + 1).last() == b);
        }
        let ghost before = out@;
        out.append(hex_digit_str(b / 16));
        out.append(hex_digit_str(b % 16));
        assert(out@ =~= before.push(hex_digit(b / 16)).push(hex_digit(b % 16)));
        i += 1;
    }
    assert(bytes@.take(i as int) =~= bytes@);
    out
}

/// The bytes with every carriage return that a line feed follows taken out.
pub fn to_unix_lines(bytes: &[u8]) -> (r: Vec<u8>)
    ensures
        r@ == unix_lines(bytes@),
{
    let mut out: Vec<u8> = Vec::new();
    let mut i: usize = 0;
    assert(bytes@.skip(0) =~= bytes@);
    while i < bytes.len()
        invariant
            i <= bytes.len(),
            out@ + unix_lines(bytes@.skip(i as int)) == unix_lines(bytes@),
        decreases bytes.len() - i,
    {
        let ghost rest = bytes@.skip(i as int);
        let ghost before = out@;
        proof {
            assert(rest[0] == bytes@[i as int]);
            assert(rest.skip(1) =~= bytes@.skip(i + 1));
            if i + 1 < bytes.len() {
                assert(rest[1] == bytes@[i + 1]);
            }
        }
        if bytes[i] == 13 && i + 1 < bytes.len() && bytes[i + 1] == 10 {
        } else {
            out.push(bytes[i]);
            assert(out@ + unix_lines(rest.skip(1)) =~= before + (seq![rest[0]] + unix_lines(
                rest.skip(1),
            )));
        }
        i += 1;
    }
    assert(unix_lines(bytes@.skip(i as int)) =~= Seq::empty());
    assert(out@ + Seq::<u8>::empty() =~= out@);
    out
}

/// The content hash of a body: the MD5 digest, in lowercase hexadecimal
/// digits, of the body without the white space around it and with Unix line
/// ends.
pub fn content_hash(body: &str) -> (r: String)
    ensures
        r@ == hash_of(body@),
        is_digest(r@),
{
    let lines = to_unix_lines(trim_str(body).as_bytes());
    let digest = md5_digest(lines.as_slice());
    proof {
        lemma_hex_text(digest@);
    }
    hex_string(digest.as_slice())
}

/// A page as it was found: the text of its URL, its body, and the instant
/// at which it was found.
#[derive(Debug, Clone, PartialEq, Eq)]
pub struct PageContent {
    pub url: String,
    pub body: String,
    pub seen: DateTimeSerde,
}

/// The page that stands for a content: it has the content's URL, the instant
/// at which the content was found as its timestamp, and the hash of the body.
pub open spec fn observed_page(content: PageContent) -> Result<PageView, Failure> {
    match url_canonical(content.url@) {
        Some(url) => Ok(
            PageView {
                url,
                lastmod: Some(content.seen@),
                md5_hash: Some(hash_of(content.body@)),
            },
        ),
        None => Err(invalid_url(content.url@)),
    }
}

impl Page {
    /// The page that stands for a content. Fails with `InvalidUrl` where the
    /// URL is not an absolute URL.
    pub fn observed(content: &PageContent) -> (r: Result<Page, SitemapError>)
        ensures
            match r {
                Ok(page) => observed_page(*content) == Ok::<_, Failure>(page@) && is_digest(
                    page@.md5_hash.unwrap(),
                ) && is_exact_page(page@),
                Err(e) => observed_page(*content) == Err::<PageView, _>(e@),
            },
    {
        match UrlSerde::parse(content.url.as_str()) {
            Ok(url) => {
                let hash = content_hash(content.body.as_str());
                proof {
                    use_type_invariant(&content.seen);
                    content.seen.lemma_wf();
                    lemma_digest_is_plain(hash@);
                }
                Ok(Page { url, lastmod: Some(content.seen.clone()), md5_hash: Some(hash) })
            },
            Err(e) => Err(e),
        }
    }
}

/// The pages that stand for the first `n` contents, or the failure of the
/// first of them that has no absolute URL.
pub open spec fn observed_pages(contents: Seq<PageContent>, n: int) -> Result<
    Seq<PageView>,
    Failure,
>
    decreases n,
{
    if n <= 0 {
        Ok(Seq::empty())
    } else {
        match observed_pages(contents, n - 1) {
            Ok(front) => match observed_page(contents[n - 1]) {
                Ok(page) => Ok(front.push(page)),
                Err(e) => Err(e),
            },
            Err(e) => Err(e),
        }
    }
}

/// Where the first `n` contents fail, all fail in the same way.
proof fn lemma_observed_pages_fail(contents: Seq<PageContent>, n: int)
    requires
        0 <= n <= contents.len(),
        observed_pages(contents, n) is Err,
    ensures
        observed_pages(contents, contents.len() as int) == observed_pages(contents, n),
    decreases contents.len() - n,
{
    if n < contents.len() {
        lemma_observed_pages_fail(contents, n + 1);
    }
}

impl Sitemap {
    /// The sitemap of the contents that were found, in their order. Fails
    /// with `InvalidUrl` at the first content whose URL is not an absolute URL.
    pub fn observed(contents: &Vec<PageContent>) -> (r: Result<Sitemap, SitemapError>)
        ensures
            match r {
                Ok(sitemap) => observed_pages(contents@, contents@.len() as int) == Ok::<
                    _,
                    Failure,
                >(sitemap@) && is_exact(sitemap@),
                Err(e) => observed_pages(contents@, contents@.len() as int) == Err::<
                    Seq<PageView>,
                    _,
                >(e@),
            },
    {
        let mut pages: Vec<Page> = Vec::new();
        let mut i: usize = 0;
        assert(views(pages@) =~= Seq::empty());
        while i < contents.len()
            invariant
                i <= contents.len(),
                observed_pages(contents@, i as int) == Ok::<_, Failure>(views(pages@)),
                is_exact(views(pages@)),
            decreases contents.len() - i,
        {
            let ghost before = views(pages@);
            match Page::observed(&contents[i]) {
                Ok(page) => {
                    let ghost added = page@;
                    pages.push(page);
                    assert(views(pages@) =~= before.push(added));
                    assert forall|j: int| 0 <= j < pages@.len() implies is_exact_page(
                        #[trigger] views(pages@)[j],
                    ) by {
                        if j < before.len() {
                            assert(views(pages@)[j] == before[j]);
                        }
                    }
                },
                Err(e) => {
                    proof {
                        assert(observed_pages(contents@, i + 1) == Err::<Seq<PageView>, _>(e@));
                        lemma_observed_pages_fail(contents@, i + 1);
                    }
                    return Err(e);
                },
            }
            i += 1;
        }
        Ok(Sitemap { pages })
    }
}

} // verus!

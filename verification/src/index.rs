//! Finding the page with a given URL among many.

use crate::order::views;
use crate::sitemap::{last_index_of, lemma_last_index_of, Page, PageView};
use crate::web_url::UrlSerde;
use std::collections::HashMap;
use vstd::prelude::*;
use vstd::utf8::encode_utf8;

verus! {

/// The number of a text after one more byte.
pub open spec fn mix(h: u64, b: u8) -> u64 {
    ((h as int * 31 + b as int) % 0x1_0000_0000_0000_0000) as u64
}

/// A number for a sequence of bytes.
pub open spec fn bytes_hash(bytes: Seq<u8>) -> u64
    decreases bytes.len(),
{
    if bytes.len() == 0 {
        7
    } else {
        mix(bytes_hash(bytes.drop_last()), bytes.last())
    }
}

/// A number for a text. Texts with different numbers differ.
pub open spec fn text_hash(text: Seq<char>) -> u64 {
    bytes_hash(encode_utf8(text))
}

fn hash_bytes(bytes: &[u8]) -> (r: u64)
    ensures
        r == bytes_hash(bytes@),
{
    let mut h: u64 = 7;
    let mut i: usize = 0;
    assert(bytes@.take(0) =~= Seq::empty());
    while i < bytes.len()
        invariant
            i <= bytes.len(),
            h == bytes_hash(bytes@.take(i as int)),
        decreases bytes.len() - i,
    {
        proof {
            assert(bytes@.take(i + 1).drop_last() =~= bytes@.take(i as int));
            assert(bytes@.take(i + 1).last() == bytes@[i as int]);
        }
        let wide: u128 = (h as u128 * 31 + bytes[i] as u128) % 0x1_0000_0000_0000_0000u128;
        h = wide as u64;
        i += 1;
    }
    assert(bytes@.take(i as int) =~= bytes@);
    h
}

/// The number of page `j`.
pub open spec fn hash_at(pages: Seq<PageView>, j: int) -> u64 {
    text_hash(pages[j].url.text)
}

/// For each page the last page before it with the same number, and for each
/// number the last page with it.
pub open spec fn is_index_of(
    heads: Map<u64, usize>,
    previous: Seq<Option<usize>>,
    pages: Seq<PageView>,
) -> bool {
    &&& previous.len() == pages.len()
    &&& forall|j: int|
        0 <= j < pages.len() ==> match #[trigger] previous[j] {
            Some(p) => p < j && hash_at(pages, p as int) == hash_at(pages, j) && forall|k: int|
                p < k < j ==> #[trigger] hash_at(pages, k) != hash_at(pages, j),
            None => forall|k: int| 0 <= k < j ==> #[trigger] hash_at(pages, k) != hash_at(pages, j),
        }
    &&& forall|h: u64|
        if #[trigger] heads.contains_key(h) {
            heads[h] < pages.len() && hash_at(pages, heads[h] as int) == h && forall|k: int|
                heads[h] < k < pages.len() ==> #[trigger] hash_at(pages, k) != h
        } else {
            forall|k: int| 0 <= k < pages.len() ==> #[trigger] hash_at(pages, k) != h
        }
}

/// An index of the pages of a sitemap by their URLs.
pub struct UrlIndex<'a> {
    pages: &'a Vec<Page>,
    heads: HashMap<u64, usize>,
    previous: Vec<Option<usize>>,
}

/// A page that has the URL and has no page with the URL behind it is the
/// last with the URL; where no page has the URL, none is.
proof fn lemma_last_index_is(pages: Seq<PageView>, url: Seq<char>, found: Option<int>)
    requires
        match found {
            Some(c) => 0 <= c < pages.len() && pages[c].url.text == url && forall|k: int|
                c < k < pages.len() ==> (#[trigger] pages[k]).url.text != url,
            None => forall|k: int| 0 <= k < pages.len() ==> (#[trigger] pages[k]).url.text != url,
        },
    ensures
        last_index_of(pages, url) == found,
{
    lemma_last_index_of(pages, url);
    match (found, last_index_of(pages, url)) {
        (Some(c), Some(k)) => {
            if k < c {
                assert(pages[c].url.text != url);
            }
            if c < k {
                assert(pages[k].url.text != url);
            }
        },
        (Some(c), None) => {
            assert(pages[c].url.text != url);
        },
        (None, Some(k)) => {
            assert(pages[k].url.text != url);
        },
        (None, None) => {},
    }
}

impl<'a> UrlIndex<'a> {
    /// The pages that the index is of.
    pub closed spec fn pages(&self) -> Seq<PageView> {
        views(self.pages@)
    }

    #[verifier::type_invariant]
    spec fn wf(&self) -> bool {
        is_index_of(self.heads@, self.previous@, views(self.pages@))
    }

    /// The index of the given pages.
    pub fn new(pages: &'a Vec<Page>) -> (index: UrlIndex<'a>)
        ensures
            index.pages() == views(pages@),
    {
        let ghost all = views(pages@);
        let mut heads: HashMap<u64, usize> = HashMap::new();
        let mut previous: Vec<Option<usize>> = Vec::new();
        let mut i: usize = 0;
        while i < pages.len()
            invariant
                i <= pages.len(),
                all == views(pages@),
                is_index_of(heads@, previous@, all.take(i as int)),
            decreases pages.len() - i,
        {
            let ghost before = all.take(i as int);
            let ghost after = all.take(i + 1);
            let ghost old_heads = heads@;
            let ghost old_previous = previous@;
            let h = hash_bytes(pages[i].url.as_str().as_bytes());
            proof {
                assert(all[i as int] == pages@[i as int]@);
                assert(h == hash_at(after, i as int));
                assert forall|j: int| 0 <= j < i implies hash_at(after, j) == hash_at(before, j) by {
                    assert(after[j] == before[j]);
                }
            }
            let earlier = heads.insert(h, i);
            previous.push(earlier);
            proof {
                assert forall|j: int| 0 <= j < after.len() implies match #[trigger] previous@[j] {
                    Some(p) => p < j && hash_at(after, p as int) == hash_at(after, j) && forall|
                        k: int,
                    | p < k < j ==> #[trigger] hash_at(after, k) != hash_at(after, j),
                    None => forall|k: int|
                        0 <= k < j ==> #[trigger] hash_at(after, k) != hash_at(after, j),
                } by {
                    if j < i {
                        assert(previous@[j] == old_previous[j]);
                        match old_previous[j] {
                            Some(p) => {
                                assert forall|k: int| p < k < j implies #[trigger] hash_at(after, k)
                                    != hash_at(after, j) by {
                                    assert(hash_at(before, k) != hash_at(before, j));
                                }
                            },
                            None => {
                                assert forall|k: int| 0 <= k < j implies #[trigger] hash_at(
                                    after,
                                    k,
                                ) != hash_at(after, j) by {
                                    assert(hash_at(before, k) != hash_at(before, j));
                                }
                            },
                        }
                    } else {
                        assert(old_heads.contains_key(h) || !old_heads.contains_key(h));
                        match earlier {
                            Some(p) => {
                                assert forall|k: int| p < k < j implies #[trigger] hash_at(after, k)
                                    != hash_at(after, j) by {
                                    assert(hash_at(before, k) != h);
                                }
                            },
                            None => {
                                assert forall|k: int| 0 <= k < j implies #[trigger] hash_at(
                                    after,
                                    k,
                                ) != hash_at(after, j) by {
                                    assert(hash_at(before, k) != h);
                                }
                            },
                        }
                    }
                }
                assert forall|g: u64|
                    if #[trigger] heads@.contains_key(g) {
                        heads@[g] < after.len() && hash_at(after, heads@[g] as int) == g && forall|
                            k: int,
                        | heads@[g] < k < after.len() ==> #[trigger] hash_at(after, k) != g
                    } else {
                        forall|k: int| 0 <= k < after.len() ==> #[trigger] hash_at(after, k) != g
                    } by {
                    if g != h {
                        assert(old_heads.contains_key(g) == heads@.contains_key(g));
                        if old_heads.contains_key(g) {
                            assert forall|k: int| heads@[g] < k < after.len() implies #[trigger] hash_at(
                                after,
                                k,
                            ) != g by {
                                if k < i {
                                    assert(hash_at(before, k) != g);
                                }
                            }
                        } else {
                            assert forall|k: int| 0 <= k < after.len() implies #[trigger] hash_at(
                                after,
                                k,
                            ) != g by {
                                if k < i {
                                    assert(hash_at(before, k) != g);
                                }
                            }
                        }
                    }
                }
            }
            i += 1;
        }
        assert(all.take(i as int) =~= all);
        UrlIndex { pages, heads, previous }
    }

    /// The last place among the pages at which `url` stands.
    pub fn find_last(&self, url: &UrlSerde) -> (r: Option<usize>)
        ensures
            match r {
                Some(k) => last_index_of(self.pages(), url@.text) == Some(k as int),
                None => last_index_of(self.pages(), url@.text) is None,
            },
    {
        proof {
            use_type_invariant(self);
        }
        let ghost all = views(self.pages@);
        let ghost target = url@.text;
        let h = hash_bytes(url.as_str().as_bytes());
        let mut current: Option<usize> = match self.heads.get(&h) {
            Some(c) => Some(*c),
            None => None,
        };
        proof {
            assert(self.heads@.contains_key(h) || !self.heads@.contains_key(h));
            match current {
                Some(c) => {
                    assert forall|k: int| c < k < all.len() implies (#[trigger] all[k]).url.text
                        != target by {
                        assert(hash_at(all, k) != h);
                    }
                },
                None => {
                    assert forall|k: int| 0 <= k < all.len() implies (#[trigger] all[k]).url.text
                        != target by {
                        assert(hash_at(all, k) != h);
                    }
                },
            }
        }
        loop
            invariant
                all == views(self.pages@),
                target == url@.text,
                h == text_hash(target),
                is_index_of(self.heads@, self.previous@, all),
                match current {
                    Some(c) => c < all.len() && hash_at(all, c as int) == h && forall|k: int|
                        c < k < all.len() ==> (#[trigger] all[k]).url.text != target,
                    None => forall|k: int|
                        0 <= k < all.len() ==> (#[trigger] all[k]).url.text != target,
                },
            decreases
                    match current {
                        Some(c) => c + 1,
                        None => 0,
                    },
        {
            match current {
                Some(c) => {
                    assert(all[c as int] == self.pages@[c as int]@);
                    if self.pages[c].url.same_url(url) {
                        proof {
                            lemma_last_index_is(all, target, Some(c as int));
                        }
                        return Some(c);
                    }
                    let next = self.previous[c];
                    proof {
                        match next {
                            Some(p) => {
                                assert forall|k: int| p < k < all.len() implies (
                                #[trigger] all[k]).url.text != target by {
                                    if k < c {
                                        assert(hash_at(all, k) != hash_at(all, c as int));
                                    }
                                }
                            },
                            None => {
                                assert forall|k: int| 0 <= k < all.len() implies (
                                #[trigger] all[k]).url.text != target by {
                                    if k < c {
                                        assert(hash_at(all, k) != hash_at(all, c as int));
                                    }
                                }
                            },
                        }
                    }
                    current = next;
                },
                None => {
                    proof {
                        lemma_last_index_is(all, target, None);
                    }
                    return None;
                },
            }
        }
    }
}

} // verus!

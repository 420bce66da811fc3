//! What holds of sorting and reconciliation, whatever the sitemaps.

use crate::order::{
    keys_distinct, lemma_sorted, lemma_sorted_distinct, lemma_sorted_members,
    lemma_sorted_of_sorted, lemma_text_le_reflexive, lemma_text_le_transitive, lemma_upper_bound,
    sorted, upper_bound, Keyed,
};
use crate::text::text_le;
use crate::sitemap::{
    combined, is_exact, is_exact_page, is_removed, last_index_of, lemma_last_index_of, removed_urls, removed_urls_among,
    status_of, unique_urls, urls_with_status, urls_with_status_among, PageStatus,
    PageView,
};
use crate::web_url::UrlView;
use vstd::prelude::*;

verus! {

/// Sorting twice gives what sorting once gives.
pub proof fn lemma_sort_is_idempotent<A: Keyed>(s: Seq<A>)
    ensures
        sorted(sorted(s)) == sorted(s),
{
    lemma_sorted(s);
    lemma_sorted_of_sorted(sorted(s));
}

/// Whether an item has the key `key`.
pub open spec fn has_key<A: Keyed>(key: Seq<char>) -> spec_fn(A) -> bool {
    |a: A| a.key() == key
}

/// The items of `s` whose key is `key`, in their order.
pub open spec fn with_key<A: Keyed>(s: Seq<A>, key: Seq<char>) -> Seq<A> {
    s.filter(has_key(key))
}

/// Sorting is stable: the items with one key stand in the sorted sequence in
/// the order in which they stood before.
pub proof fn lemma_sort_is_stable<A: Keyed>(s: Seq<A>, key: Seq<char>)
    ensures
        with_key(sorted(s), key) == with_key(s, key),
    decreases s.len(),
{
    let pred = has_key::<A>(key);
    if s.len() > 0 {
        let front = s.drop_last();
        let x = s.last();
        let t = sorted(front);
        let p = upper_bound(t, x.key());
        lemma_sort_is_stable(front, key);
        lemma_sorted(front);
        lemma_upper_bound(t, x.key());
        let left = t.take(p);
        let right = t.skip(p);
        assert(t =~= left + right);
        assert(t.insert(p, x) =~= left + seq![x] + right);
        Seq::filter_distributes_over_add(left, right, pred);
        Seq::filter_distributes_over_add(left, seq![x], pred);
        Seq::filter_distributes_over_add(left + seq![x], right, pred);
        assert(seq![x] =~= Seq::<A>::empty().push(x));
        Seq::lemma_filter_push(Seq::<A>::empty(), x, pred);
        assert(Seq::<A>::empty().filter(pred) =~= Seq::<A>::empty());
        Seq::lemma_filter_push(front, x, pred);
        assert(front.push(x) =~= s);
        if x.key() == key {
            // Behind the place of `x` every key comes later than that of `x`.
            assert forall|i: int| 0 <= i < right.len() implies !pred(#[trigger] right[i]) by {
                assert(right[i] == t[p + i]);
                if t[p + i].key() == key {
                    lemma_text_le_reflexive(key);
                    if i > 0 {
                        assert(text_le(t[p].key(), t[p + i].key()));
                        lemma_text_le_transitive(t[p].key(), t[p + i].key(), x.key());
                    }
                    assert(false);
                }
            }
            right.lemma_all_neg_filter_empty(pred);
            assert(right.filter(pred) =~= Seq::<A>::empty());
        }
        let fl = left.filter(pred);
        let fx = seq![x].filter(pred);
        let fr = right.filter(pred);
        assert(t.filter(pred) == fl + fr);
        assert(sorted(s) == left + seq![x] + right);
        assert(sorted(s).filter(pred) == fl + fx + fr);
        assert(t.filter(pred) == front.filter(pred));
        if pred(x) {
            assert(fx =~= seq![x]);
            assert(s.filter(pred) == front.filter(pred).push(x));
            assert(fl + fx + fr =~= (fl + fr).push(x));
        } else {
            assert(fx =~= Seq::<A>::empty());
            assert(fl + fx + fr =~= fl + fr);
        }
    } else {
        assert(sorted(s) =~= s);
    }
}

/// Sorting exact pages gives exact pages.
pub proof fn lemma_sorted_is_exact(pages: Seq<PageView>)
    requires
        is_exact(pages),
    ensures
        is_exact(sorted(pages)),
{
    lemma_sorted_members(pages);
    assert forall|i: int| 0 <= i < sorted(pages).len() implies is_exact_page(
        #[trigger] sorted(pages)[i],
    ) by {
        assert(sorted(pages).contains(sorted(pages)[i]));
        assert(pages.contains(sorted(pages)[i]));
        let j = choose|j: int| 0 <= j < pages.len() && pages[j] == sorted(pages)[i];
        assert(is_exact_page(pages[j]));
    }
}

/// Reconciling exact pages with exact pages gives exact pages.
pub proof fn lemma_combined_is_exact(fresh: Seq<PageView>, earlier: Seq<PageView>)
    requires
        is_exact(fresh),
        is_exact(earlier),
    ensures
        is_exact(combined(fresh, earlier)),
{
    assert forall|i: int| 0 <= i < fresh.len() implies is_exact_page(
        #[trigger] combined(fresh, earlier)[i],
    ) by {
        assert(is_exact_page(fresh[i]));
        if status_of(fresh, earlier, i) is Unchanged {
            lemma_last_index_of(earlier, fresh[i].url.text);
            let k = last_index_of(earlier, fresh[i].url.text).unwrap();
            assert(is_exact_page(earlier[k]));
        }
    }
}

/// One of the URLs has the serialization `text`.
pub open spec fn has_text(urls: Seq<UrlView>, text: Seq<char>) -> bool {
    exists|i: int| 0 <= i < urls.len() && (#[trigger] urls[i]).text == text
}

/// One of the pages has the URL with the serialization `text`.
pub open spec fn has_url(pages: Seq<PageView>, text: Seq<char>) -> bool {
    exists|i: int| 0 <= i < pages.len() && (#[trigger] pages[i]).url.text == text
}

/// Sorting keeps the serializations that occur.
proof fn lemma_sorted_texts(urls: Seq<UrlView>)
    ensures
        forall|t: Seq<char>| has_text(sorted(urls), t) <==> has_text(urls, t),
{
    lemma_sorted_members(urls);
    assert forall|t: Seq<char>| has_text(sorted(urls), t) <==> has_text(urls, t) by {
        if has_text(sorted(urls), t) {
            let i = choose|i: int| 0 <= i < sorted(urls).len() && (#[trigger] sorted(urls)[i]).text == t;
            assert(sorted(urls).contains(sorted(urls)[i]));
            assert(urls.contains(sorted(urls)[i]));
            let j = choose|j: int| 0 <= j < urls.len() && urls[j] == sorted(urls)[i];
            assert(urls[j].text == t);
        }
        if has_text(urls, t) {
            let i = choose|i: int| 0 <= i < urls.len() && (#[trigger] urls[i]).text == t;
            assert(urls.contains(urls[i]));
            assert(sorted(urls).contains(urls[i]));
            let j = choose|j: int| 0 <= j < sorted(urls).len() && sorted(urls)[j] == urls[i];
            assert(sorted(urls)[j].text == t);
        }
    }
}

/// The list made for a status from the first `n` pages holds the URLs of the
/// pages with that status and no others.
proof fn lemma_urls_with_status_among(
    fresh: Seq<PageView>,
    earlier: Seq<PageView>,
    status: PageStatus,
    n: int,
)
    requires
        0 <= n <= fresh.len(),
    ensures
        forall|t: Seq<char>|
            has_text(urls_with_status_among(fresh, earlier, status, n), t) <==> exists|j: int|
                0 <= j < n && status_of(fresh, earlier, j) == status && (#[trigger] fresh[j]).url.text
                    == t,
        unique_urls(fresh) ==> keys_distinct(urls_with_status_among(fresh, earlier, status, n)),
    decreases n,
{
    let list = urls_with_status_among(fresh, earlier, status, n);
    if n > 0 {
        let front = urls_with_status_among(fresh, earlier, status, n - 1);
        lemma_urls_with_status_among(fresh, earlier, status, n - 1);
        let taken = status_of(fresh, earlier, n - 1) == status;
        assert forall|t: Seq<char>| has_text(list, t) <==> exists|j: int|
            0 <= j < n && status_of(fresh, earlier, j) == status && (#[trigger] fresh[j]).url.text
                == t by {
            if has_text(list, t) {
                let i = choose|i: int| 0 <= i < list.len() && (#[trigger] list[i]).text == t;
                if taken && i == list.len() - 1 {
                    assert(fresh[n - 1].url.text == t);
                } else {
                    assert(front[i].text == t);
                    assert(has_text(front, t));
                }
            }
            if exists|j: int|
                0 <= j < n && status_of(fresh, earlier, j) == status && (#[trigger] fresh[j]).url.text
                    == t {
                let j = choose|j: int|
                    0 <= j < n && status_of(fresh, earlier, j) == status && (
                    #[trigger] fresh[j]).url.text == t;
                if j == n - 1 {
                    assert(list[list.len() - 1].text == t);
                } else {
                    assert(has_text(front, t));
                    let i = choose|i: int| 0 <= i < front.len() && (#[trigger] front[i]).text == t;
                    assert(list[i].text == t);
                }
            }
        }
        if unique_urls(fresh) && taken {
            assert forall|i: int, j: int| 0 <= i < j < list.len() implies (#[trigger] list[i]).key()
                != (#[trigger] list[j]).key() by {
                if j == list.len() - 1 {
                    assert(list[i] == front[i]);
                    assert(has_text(front, front[i].text));
                } else {
                    assert(list[i] == front[i] && list[j] == front[j]);
                }
            }
        }
    } else {
        assert(list.len() == 0);
    }
}

/// The list of removed URLs made from the first `n` earlier pages holds the
/// URLs of the removed pages among them, each once.
proof fn lemma_removed_urls_among(fresh: Seq<PageView>, earlier: Seq<PageView>, n: int)
    requires
        0 <= n <= earlier.len(),
    ensures
        forall|t: Seq<char>|
            has_text(removed_urls_among(fresh, earlier, n), t) <==> exists|k: int|
                0 <= k < n && is_removed(fresh, earlier, k) && (#[trigger] earlier[k]).url.text == t,
        keys_distinct(removed_urls_among(fresh, earlier, n)),
    decreases n,
{
    let list = removed_urls_among(fresh, earlier, n);
    if n > 0 {
        let front = removed_urls_among(fresh, earlier, n - 1);
        lemma_removed_urls_among(fresh, earlier, n - 1);
        let taken = is_removed(fresh, earlier, n - 1);
        assert forall|t: Seq<char>| has_text(list, t) <==> exists|k: int|
            0 <= k < n && is_removed(fresh, earlier, k) && (#[trigger] earlier[k]).url.text
                == t by {
            if has_text(list, t) {
                let i = choose|i: int| 0 <= i < list.len() && (#[trigger] list[i]).text == t;
                if taken && i == list.len() - 1 {
                    assert(earlier[n - 1].url.text == t);
                } else {
                    assert(front[i].text == t);
                    assert(has_text(front, t));
                }
            }
            if exists|k: int|
                0 <= k < n && is_removed(fresh, earlier, k) && (#[trigger] earlier[k]).url.text
                    == t {
                let k = choose|k: int|
                    0 <= k < n && is_removed(fresh, earlier, k) && (#[trigger] earlier[k]).url.text
                        == t;
                if k == n - 1 {
                    assert(list[list.len() - 1].text == t);
                } else {
                    assert(has_text(front, t));
                    let i = choose|i: int| 0 <= i < front.len() && (#[trigger] front[i]).text == t;
                    assert(list[i].text == t);
                }
            }
        }
        if taken {
            assert forall|i: int, j: int| 0 <= i < j < list.len() implies (#[trigger] list[i]).key()
                != (#[trigger] list[j]).key() by {
                if j == list.len() - 1 {
                    assert(list[i] == front[i]);
                    assert(has_text(front, front[i].text));
                    // the page that stands for a URL is one page
                } else {
                    assert(list[i] == front[i] && list[j] == front[j]);
                }
            }
        }
    } else {
        assert(list.len() == 0);
    }
}

/// The three lists of a reconciliation part the pages of the fresh sitemap:
/// each page stands in the list of its status and in no other, the lists hold
/// no other URL, and none holds a URL twice.
pub proof fn lemma_reconciliation_partition(fresh: Seq<PageView>, earlier: Seq<PageView>)
    requires
        unique_urls(fresh),
    ensures
        forall|i: int, status: PageStatus|
            0 <= i < fresh.len() ==> (has_text(
                #[trigger] urls_with_status(fresh, earlier, status),
                (#[trigger] fresh[i]).url.text,
            ) <==> status_of(fresh, earlier, i) == status),
        forall|status: PageStatus, t: Seq<char>| #[trigger]
            has_text(urls_with_status(fresh, earlier, status), t) ==> has_url(fresh, t),
        forall|status: PageStatus| keys_distinct(#[trigger] urls_with_status(fresh, earlier, status)),
        urls_with_status(fresh, earlier, PageStatus::New).len() + urls_with_status(
            fresh,
            earlier,
            PageStatus::Unchanged,
        ).len() + urls_with_status(fresh, earlier, PageStatus::Updated).len() == fresh.len(),
{
    let n = fresh.len() as int;
    assert forall|status: PageStatus| keys_distinct(#[trigger] urls_with_status(fresh, earlier, status)) by {
        lemma_urls_with_status_among(fresh, earlier, status, n);
        lemma_sorted_distinct(urls_with_status_among(fresh, earlier, status, n));
    }
    assert forall|status: PageStatus, t: Seq<char>| #[trigger]
        has_text(urls_with_status(fresh, earlier, status), t) implies has_url(fresh, t) by {
        lemma_listed_url_is_fresh(fresh, earlier, status, t);
    }
    assert forall|i: int, status: PageStatus| 0 <= i < fresh.len() implies (has_text(
        #[trigger] urls_with_status(fresh, earlier, status),
        (#[trigger] fresh[i]).url.text,
    ) <==> status_of(fresh, earlier, i) == status) by {
        lemma_urls_with_status_among(fresh, earlier, status, n);
        lemma_sorted_texts(urls_with_status_among(fresh, earlier, status, n));
        let t = fresh[i].url.text;
        if has_text(urls_with_status_among(fresh, earlier, status, n), t) {
            let j = choose|j: int|
                0 <= j < n && status_of(fresh, earlier, j) == status && (#[trigger] fresh[j]).url.text
                    == t;
            assert(j == i);
        }
    }
    lemma_status_counts(fresh, earlier, n);
    lemma_sorted(urls_with_status_among(fresh, earlier, PageStatus::New, n));
    lemma_sorted(urls_with_status_among(fresh, earlier, PageStatus::Unchanged, n));
    lemma_sorted(urls_with_status_among(fresh, earlier, PageStatus::Updated, n));
}

/// Each of the first `n` pages stands in one of the three lists.
proof fn lemma_status_counts(fresh: Seq<PageView>, earlier: Seq<PageView>, n: int)
    requires
        0 <= n <= fresh.len(),
    ensures
        urls_with_status_among(fresh, earlier, PageStatus::New, n).len() + urls_with_status_among(
            fresh,
            earlier,
            PageStatus::Unchanged,
            n,
        ).len() + urls_with_status_among(fresh, earlier, PageStatus::Updated, n).len() == n,
    decreases n,
{
    if n > 0 {
        lemma_status_counts(fresh, earlier, n - 1);
    }
}

/// The removed URLs are the URLs of the earlier sitemap that the fresh one
/// does not have, each once.
pub proof fn lemma_removed_is_difference(fresh: Seq<PageView>, earlier: Seq<PageView>)
    ensures
        forall|t: Seq<char>| #[trigger]
            has_text(removed_urls(fresh, earlier), t) <==> has_url(earlier, t) && !has_url(
                fresh,
                t,
            ),
        keys_distinct(removed_urls(fresh, earlier)),
{
    let n = earlier.len() as int;
    lemma_removed_urls_among(fresh, earlier, n);
    lemma_sorted_texts(removed_urls_among(fresh, earlier, n));
    lemma_sorted_distinct(removed_urls_among(fresh, earlier, n));
    assert forall|t: Seq<char>| #[trigger]
        has_text(removed_urls(fresh, earlier), t) <==> has_url(earlier, t) && !has_url(
            fresh,
            t,
        ) by {
        lemma_last_index_of(earlier, t);
        lemma_last_index_of(fresh, t);
        if has_url(earlier, t) && !has_url(fresh, t) {
            let k = last_index_of(earlier, t).unwrap();
            assert(is_removed(fresh, earlier, k));
        }
        if has_text(removed_urls_among(fresh, earlier, n), t) {
            let k = choose|k: int|
                0 <= k < n && is_removed(fresh, earlier, k) && (#[trigger] earlier[k]).url.text == t;
            assert(has_url(earlier, t));
            if has_url(fresh, t) {
                let j = choose|j: int| 0 <= j < fresh.len() && (#[trigger] fresh[j]).url.text == t;
                assert(false);
            }
        }
    }
}

/// A URL in the list of a status is the URL of a fresh page.
pub proof fn lemma_listed_url_is_fresh(
    fresh: Seq<PageView>,
    earlier: Seq<PageView>,
    status: PageStatus,
    t: Seq<char>,
)
    requires
        has_text(urls_with_status(fresh, earlier, status), t),
    ensures
        has_url(fresh, t),
{
    let n = fresh.len() as int;
    lemma_urls_with_status_among(fresh, earlier, status, n);
    lemma_sorted_texts(urls_with_status_among(fresh, earlier, status, n));
    assert(has_text(urls_with_status_among(fresh, earlier, status, n), t));
    let j = choose|j: int|
        0 <= j < n && status_of(fresh, earlier, j) == status && (#[trigger] fresh[j]).url.text == t;
    assert(fresh[j].url.text == t);
}

/// No removed URL stands in one of the three lists of fresh pages.
pub proof fn lemma_removed_is_apart(
    fresh: Seq<PageView>,
    earlier: Seq<PageView>,
    status: PageStatus,
    t: Seq<char>,
)
    requires
        has_text(removed_urls(fresh, earlier), t),
    ensures
        !has_text(urls_with_status(fresh, earlier, status), t),
{
    assert(!has_url(fresh, t)) by {
        lemma_removed_is_difference(fresh, earlier);
    }
    if has_text(urls_with_status(fresh, earlier, status), t) {
        lemma_listed_url_is_fresh(fresh, earlier, status, t);
    }
}

/// Reconciliation neither adds nor removes nor moves a page, and changes of
/// a page its timestamp at most.
pub proof fn lemma_combined_keeps_pages(fresh: Seq<PageView>, earlier: Seq<PageView>)
    ensures
        combined(fresh, earlier).len() == fresh.len(),
        forall|i: int|
            0 <= i < fresh.len() ==> (#[trigger] combined(fresh, earlier)[i]).url == fresh[i].url
                && combined(fresh, earlier)[i].md5_hash == fresh[i].md5_hash,
{
}

/// A page whose content is unchanged has, after reconciliation, the
/// timestamp of the earlier page with its URL, whatever its own was.
pub proof fn lemma_unchanged_keeps_timestamp(fresh: Seq<PageView>, earlier: Seq<PageView>, i: int)
    requires
        0 <= i < fresh.len(),
        status_of(fresh, earlier, i) is Unchanged,
    ensures
        ({
            let k = last_index_of(earlier, fresh[i].url.text).unwrap();
            &&& 0 <= k < earlier.len()
            &&& earlier[k].url.text == fresh[i].url.text
            &&& earlier[k].lastmod is Some
            &&& combined(fresh, earlier)[i].lastmod == earlier[k].lastmod
        }),
{
    lemma_last_index_of(earlier, fresh[i].url.text);
}

/// A page that is new or updated is, after reconciliation, as it was.
pub proof fn lemma_changed_page_stays(fresh: Seq<PageView>, earlier: Seq<PageView>, i: int)
    requires
        0 <= i < fresh.len(),
        !(status_of(fresh, earlier, i) is Unchanged),
    ensures
        combined(fresh, earlier)[i] == fresh[i],
{
}

/// A page with the URL of an earlier page, where neither has a hash, is updated.
pub proof fn lemma_unknown_content_is_updated(fresh: Seq<PageView>, earlier: Seq<PageView>, i: int)
    requires
        0 <= i < fresh.len(),
        unique_urls(fresh),
        has_url(earlier, fresh[i].url.text),
        fresh[i].md5_hash is None,
    ensures
        status_of(fresh, earlier, i) is Updated,
{
    lemma_last_index_of(earlier, fresh[i].url.text);
    lemma_last_index_of(fresh.take(i), fresh[i].url.text);
    if last_index_of(fresh.take(i), fresh[i].url.text) is Some {
        let j = last_index_of(fresh.take(i), fresh[i].url.text).unwrap();
        assert(fresh.take(i)[j] == fresh[j]);
    }
}

} // verus!

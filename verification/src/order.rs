//! The order of URLs and stable sorting by it.

use crate::text::{
    lemma_bytes_le_antisymmetric, lemma_bytes_le_reflexive, lemma_bytes_le_total,
    lemma_bytes_le_transitive, str_le, text_le,
};
use vstd::prelude::*;
use vstd::utf8::encode_utf8;

verus! {

/// A value that is ordered by the serialization of a URL.
pub trait Keyed {
    /// The serialization by which the value is ordered.
    spec fn key(self) -> Seq<char>;
}

/// A value of the library whose view is ordered by a URL.
pub trait UrlKey: View where Self::V: Keyed {
    /// The serialization by which the value is ordered.
    fn url_key(&self) -> (r: &str)
        ensures
            r@ == self@.key(),
    ;
}

/// The views of the items of a sequence.
pub open spec fn views<T: View>(s: Seq<T>) -> Seq<T::V> {
    Seq::new(s.len(), |i: int| s[i]@)
}

/// Each item comes no later than the items behind it.
pub open spec fn keys_sorted<A: Keyed>(s: Seq<A>) -> bool {
    forall|i: int, j: int| 0 <= i < j < s.len() ==> text_le(#[trigger] s[i].key(), #[trigger] s[j].key())
}

/// How many items at the front of `s` come no later than `k`. In a sorted
/// sequence these are all the items that come no later than `k`.
pub open spec fn upper_bound<A: Keyed>(s: Seq<A>, k: Seq<char>) -> int
    decreases s.len(),
{
    if s.len() > 0 && text_le(s[0].key(), k) {
        1 + upper_bound(s.skip(1), k)
    } else {
        0
    }
}

/// `x` put into `s` behind the items at the front that come no later than it.
pub open spec fn insert_sorted<A: Keyed>(s: Seq<A>, x: A) -> Seq<A> {
    s.insert(upper_bound(s, x.key()), x)
}

/// The items of `s` in the order of their keys; items with the same key stay
/// in the order in which they stand in `s`.
pub open spec fn sorted<A: Keyed>(s: Seq<A>) -> Seq<A>
    decreases s.len(),
{
    if s.len() == 0 {
        s
    } else {
        insert_sorted(sorted(s.drop_last()), s.last())
    }
}

pub proof fn lemma_text_le_reflexive(a: Seq<char>)
    ensures
        text_le(a, a),
{
    lemma_bytes_le_reflexive(encode_utf8(a));
}

pub proof fn lemma_text_le_total(a: Seq<char>, b: Seq<char>)
    ensures
        text_le(a, b) || text_le(b, a),
{
    lemma_bytes_le_total(encode_utf8(a), encode_utf8(b));
}

pub proof fn lemma_text_le_transitive(a: Seq<char>, b: Seq<char>, c: Seq<char>)
    requires
        text_le(a, b),
        text_le(b, c),
    ensures
        text_le(a, c),
{
    lemma_bytes_le_transitive(encode_utf8(a), encode_utf8(b), encode_utf8(c));
}

pub proof fn lemma_text_le_antisymmetric(a: Seq<char>, b: Seq<char>)
    requires
        text_le(a, b),
        text_le(b, a),
    ensures
        a == b,
{
    lemma_bytes_le_antisymmetric(encode_utf8(a), encode_utf8(b));
    vstd::utf8::encode_utf8_decode_utf8(a);
    vstd::utf8::encode_utf8_decode_utf8(b);
}

/// `upper_bound` lies within the sequence; the items before it come no
/// later than `k`, and the item at it, if any, comes later.
pub proof fn lemma_upper_bound<A: Keyed>(s: Seq<A>, k: Seq<char>)
    ensures
        0 <= upper_bound(s, k) <= s.len(),
        forall|i: int| 0 <= i < upper_bound(s, k) ==> text_le(#[trigger] s[i].key(), k),
        upper_bound(s, k) < s.len() ==> !text_le(s[upper_bound(s, k)].key(), k),
    decreases s.len(),
{
    if s.len() > 0 && text_le(s[0].key(), k) {
        lemma_upper_bound(s.skip(1), k);
        assert forall|i: int| 0 <= i < upper_bound(s, k) implies text_le(
            #[trigger] s[i].key(),
            k,
        ) by {
            if i > 0 {
                assert(s[i] == s.skip(1)[i - 1]);
            }
        }
    }
}

/// A position that parts the items that come no later than `k` from those
/// that come later is the upper bound.
pub proof fn lemma_upper_bound_is<A: Keyed>(s: Seq<A>, k: Seq<char>, p: int)
    requires
        0 <= p <= s.len(),
        forall|i: int| 0 <= i < p ==> text_le(#[trigger] s[i].key(), k),
        p < s.len() ==> !text_le(s[p].key(), k),
    ensures
        upper_bound(s, k) == p,
    decreases s.len(),
{
    if p > 0 {
        assert(text_le(s[0].key(), k));
        assert forall|i: int| 0 <= i < p - 1 implies text_le(
            #[trigger] s.skip(1)[i].key(),
            k,
        ) by {
            assert(s.skip(1)[i] == s[i + 1]);
        }
        lemma_upper_bound_is(s.skip(1), k, p - 1);
    }
}

/// Putting an item into a sorted sequence keeps it sorted.
pub proof fn lemma_insert_sorted<A: Keyed>(s: Seq<A>, x: A)
    requires
        keys_sorted(s),
    ensures
        keys_sorted(insert_sorted(s, x)),
        insert_sorted(s, x).len() == s.len() + 1,
        insert_sorted(s, x).to_multiset() == s.to_multiset().insert(x),
{
    let p = upper_bound(s, x.key());
    let r = insert_sorted(s, x);
    lemma_upper_bound(s, x.key());
    vstd::seq_lib::to_multiset_insert(s, p, x);
    assert forall|i: int, j: int| 0 <= i < j < r.len() implies text_le(
        #[trigger] r[i].key(),
        #[trigger] r[j].key(),
    ) by {
        if j < p {
            assert(r[i] == s[i] && r[j] == s[j]);
        } else if j == p {
            assert(r[i] == s[i]);
        } else if i < p {
            assert(r[i] == s[i] && r[j] == s[j - 1]);
        } else if i == p {
            // the items from `p` on come later than `x`
            assert(r[j] == s[j - 1]);
            lemma_text_le_total(s[p].key(), x.key());
            if j - 1 > p {
                assert(text_le(s[p].key(), s[j - 1].key()));
                lemma_text_le_transitive(x.key(), s[p].key(), s[j - 1].key());
            }
        } else {
            assert(r[i] == s[i - 1] && r[j] == s[j - 1]);
        }
    }
}

/// Sorting gives a sorted sequence of the same items.
pub proof fn lemma_sorted<A: Keyed>(s: Seq<A>)
    ensures
        keys_sorted(sorted(s)),
        sorted(s).len() == s.len(),
        sorted(s).to_multiset() == s.to_multiset(),
    decreases s.len(),
{
    if s.len() > 0 {
        lemma_sorted(s.drop_last());
        lemma_insert_sorted(sorted(s.drop_last()), s.last());
        vstd::seq_lib::to_multiset_build(s.drop_last(), s.last());
        assert(s.drop_last().push(s.last()) =~= s);
    }
}

/// Sorting leaves a sorted sequence as it is.
pub proof fn lemma_sorted_of_sorted<A: Keyed>(s: Seq<A>)
    requires
        keys_sorted(s),
    ensures
        sorted(s) == s,
    decreases s.len(),
{
    if s.len() > 0 {
        let front = s.drop_last();
        assert forall|i: int, j: int| 0 <= i < j < front.len() implies text_le(
            #[trigger] front[i].key(),
            #[trigger] front[j].key(),
        ) by {
            assert(front[i] == s[i] && front[j] == s[j]);
        }
        lemma_sorted_of_sorted(front);
        assert forall|i: int| 0 <= i < front.len() implies text_le(
            #[trigger] front[i].key(),
            s.last().key(),
        ) by {
            assert(front[i] == s[i]);
            assert(s.last() == s[s.len() - 1]);
        }
        lemma_upper_bound_is(front, s.last().key(), front.len() as int);
        assert(front.insert(front.len() as int, s.last()) =~= s);
    }
}

/// No two items have the same key.
pub open spec fn keys_distinct<A: Keyed>(s: Seq<A>) -> bool {
    forall|i: int, j: int| 0 <= i < j < s.len() ==> (#[trigger] s[i]).key() != (#[trigger] s[j]).key()
}

/// Sorting neither adds nor drops an item.
pub proof fn lemma_sorted_members<A: Keyed>(s: Seq<A>)
    ensures
        forall|a: A| sorted(s).contains(a) <==> s.contains(a),
{
    lemma_sorted(s);
    assert forall|a: A| sorted(s).contains(a) <==> s.contains(a) by {
        vstd::seq_lib::to_multiset_contains(s, a);
        vstd::seq_lib::to_multiset_contains(sorted(s), a);
    }
}

/// Sorting items with distinct keys gives items with distinct keys.
pub proof fn lemma_sorted_distinct<A: Keyed>(s: Seq<A>)
    requires
        keys_distinct(s),
    ensures
        keys_distinct(sorted(s)),
    decreases s.len(),
{
    if s.len() > 0 {
        let front = s.drop_last();
        let x = s.last();
        assert forall|i: int, j: int| 0 <= i < j < front.len() implies (#[trigger] front[i]).key()
            != (#[trigger] front[j]).key() by {
            assert(front[i] == s[i] && front[j] == s[j]);
        }
        lemma_sorted_distinct(front);
        lemma_sorted_members(front);
        lemma_sorted(front);
        let t = sorted(front);
        lemma_upper_bound(t, x.key());
        let p = upper_bound(t, x.key());
        let r = t.insert(p, x);
        assert forall|i: int| 0 <= i < t.len() implies (#[trigger] t[i]).key() != x.key() by {
            assert(t.contains(t[i]));
            assert(front.contains(t[i]));
            let q = choose|q: int| 0 <= q < front.len() && front[q] == t[i];
            assert(front[q] == s[q]);
            assert(x == s[s.len() - 1]);
        }
        assert forall|i: int, j: int| 0 <= i < j < r.len() implies (#[trigger] r[i]).key() != (
        #[trigger] r[j]).key() by {
            if i < p {
                assert(r[i] == t[i]);
            } else if i > p {
                assert(r[i] == t[i - 1]);
            }
            if j < p {
                assert(r[j] == t[j]);
            } else if j > p {
                assert(r[j] == t[j - 1]);
            }
        }
    }
}

/// The position in the sorted first `n` items of `v` behind which `x` belongs.
pub fn find_slot<T: UrlKey>(v: &Vec<T>, n: usize, x: &T) -> (p: usize) where T::V: Keyed
    requires
        n <= v.len(),
        keys_sorted(views(v@).take(n as int)),
    ensures
        p == upper_bound(views(v@).take(n as int), x@.key()),
        p <= n,
{
    let ghost s = views(v@).take(n as int);
    let key = x.url_key();
    let mut lo: usize = 0;
    let mut hi: usize = n;
    while lo < hi
        invariant
            lo <= hi <= n <= v.len(),
            s == views(v@).take(n as int),
            keys_sorted(s),
            key@ == x@.key(),
            forall|i: int| 0 <= i < lo ==> text_le(#[trigger] s[i].key(), key@),
            forall|i: int| hi <= i < n ==> !text_le(#[trigger] s[i].key(), key@),
        decreases hi - lo,
    {
        let mid = lo + (hi - lo) / 2;
        assert(s[mid as int] == v@[mid as int]@);
        if str_le(v[mid].url_key(), key) {
            assert forall|i: int| 0 <= i < mid + 1 implies text_le(
                #[trigger] s[i].key(),
                key@,
            ) by {
                if i < mid {
                    assert(text_le(s[i].key(), s[mid as int].key()));
                    lemma_text_le_transitive(s[i].key(), s[mid as int].key(), key@);
                }
            }
            lo = mid + 1;
        } else {
            assert forall|i: int| mid <= i < n implies !text_le(#[trigger] s[i].key(), key@) by {
                if i > mid && text_le(s[i].key(), key@) {
                    assert(text_le(s[mid as int].key(), s[i].key()));
                    lemma_text_le_transitive(s[mid as int].key(), s[i].key(), key@);
                }
            }
            hi = mid;
        }
    }
    proof {
        lemma_upper_bound_is(s, key@, lo as int);
    }
    lo
}

/// Sorts `v` by the URLs of its items; items with the same URL keep their
/// order. An item that stands where it belongs is not moved.
pub fn sort_in_order<T: UrlKey>(v: &mut Vec<T>) where T::V: Keyed
    ensures
        views(final(v)@) == sorted(views(old(v)@)),
{
    let ghost orig = views(v@);
    let mut i: usize = 0;
    assert(sorted(orig.take(0)) + orig.skip(0) =~= orig);
    while i < v.len()
        invariant
            i <= v.len(),
            v.len() == orig.len(),
            views(v@) == sorted(orig.take(i as int)) + orig.skip(i as int),
        decreases v.len() - i,
    {
        let ghost done = sorted(orig.take(i as int));
        let ghost before = v@;
        proof {
            lemma_sorted(orig.take(i as int));
            assert(views(v@).take(i as int) =~= done);
            assert(views(before)[i as int] == before[i as int]@);
            assert(before[i as int]@ == orig[i as int]);
            assert(orig.take(i + 1).drop_last() =~= orig.take(i as int));
            assert(orig.take(i + 1).last() == orig[i as int]);
            assert(sorted(orig.take(i + 1)) == insert_sorted(done, orig[i as int]));
        }
        let p = find_slot(v, i, &v[i]);
        if p < i {
            let x = v.remove(i);
            proof {
                assert forall|j: int| 0 <= j < v@.len() implies views(v@)[j] == (done + orig.skip(
                    i + 1,
                ))[j] by {
                    if j < i {
                        assert(views(before)[j] == before[j]@);
                    } else {
                        assert(views(before)[j + 1] == before[j + 1]@);
                    }
                }
                assert(views(v@) =~= done + orig.skip(i + 1));
            }
            let ghost mid = v@;
            v.insert(p, x);
            proof {
                assert(views(v@) =~= views(mid).insert(p as int, orig[i as int]));
                assert(views(v@) =~= sorted(orig.take(i + 1)) + orig.skip(i + 1));
            }
        } else {
            proof {
                assert(done.insert(i as int, orig[i as int]) =~= done.push(orig[i as int]));
                assert(views(v@) =~= sorted(orig.take(i + 1)) + orig.skip(i + 1));
            }
        }
        i += 1;
    }
    assert(orig.take(orig.len() as int) =~= orig);
    assert(views(v@) =~= sorted(orig));
}

} // verus!

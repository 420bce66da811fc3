//! Where a published sitemap is fetched from.

use vstd::prelude::*;
use vstd::string::StrSliceExecFns;

verus! {

/// Where a sitemap is fetched from.
#[derive(Debug, Clone, PartialEq, Eq)]
pub enum ImportSource {
    /// A document on the web, by its address.
    Remote(String),
    /// A file, by its path.
    Local(String),
}

/// `text` starts with `prefix`.
pub open spec fn has_prefix(text: Seq<char>, prefix: Seq<char>) -> bool {
    prefix.len() <= text.len() && text.take(prefix.len() as int) == prefix
}

/// The text names a document on the web: it starts with `http://` or `https://`.
pub open spec fn is_remote(source: Seq<char>) -> bool {
    has_prefix(source, "http://"@) || has_prefix(source, "https://"@)
}

/// Whether `text` starts with `prefix`.
pub fn starts_with(text: &str, prefix: &str) -> (r: bool)
    ensures
        r == has_prefix(text@, prefix@),
{
    let n = prefix.unicode_len();
    if text.unicode_len() < n {
        return false;
    }
    let mut i: usize = 0;
    while i < n
        invariant
            i <= n,
            n == prefix@.len(),
            n <= text@.len(),
            forall|j: int| 0 <= j < i ==> text@[j] == prefix@[j],
        decreases n - i,
    {
        if text.get_char(i) != prefix.get_char(i) {
            assert(text@.take(n as int)[i as int] != prefix@[i as int]);
            return false;
        }
        i += 1;
    }
    assert(text@.take(n as int) =~= prefix@);
    true
}

impl ImportSource {
    /// Tells a web address from a path: what starts with `http://` or
    /// `https://` is fetched from the web, anything else is read as a file.
    pub fn of(source: &str) -> (r: ImportSource)
        ensures
            match r {
                ImportSource::Remote(address) => is_remote(source@) && address@ == source@,
                ImportSource::Local(path) => !is_remote(source@) && path@ == source@,
            },
    {
        if starts_with(source, "http://") || starts_with(source, "https://") {
            ImportSource::Remote(source.to_owned())
        } else {
            ImportSource::Local(source.to_owned())
        }
    }
}

} // verus!

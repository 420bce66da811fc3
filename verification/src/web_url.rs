//! Absolute URLs, held by their serialization and the parts that the library reads.

use crate::error::{Failure, SitemapError};
use crate::text::{same_optional_text, str_le, text_le, text_of};
use vstd::prelude::*;

verus! {

/// A URL as contracts see it.
pub struct UrlView {
    /// The serialization of the URL.
    pub text: Seq<char>,
    pub scheme: Seq<char>,
    pub host: Option<Seq<char>>,
    /// The port, where it is not the default of the scheme.
    pub port: Option<u16>,
    /// The serialization from the path on: path, query and fragment.
    pub path_and_after: Seq<char>,
}

/// The parts of a URL as the parser reports them.
#[derive(Debug, PartialEq, Eq, Hash)]
pub struct UrlParts {
    pub text: String,
    pub scheme: String,
    pub host: Option<String>,
    pub port: Option<u16>,
    pub path_and_after: String,
}

impl View for UrlParts {
    type V = UrlView;

    open spec fn view(&self) -> UrlView {
        UrlView {
            text: self.text@,
            scheme: self.scheme@,
            host: match self.host {
                Some(h) => Some(h@),
                None => None,
            },
            port: self.port,
            path_and_after: self.path_and_after@,
        }
    }
}

/// What `url::Url::parse` makes of a text: the URL, or the parser's message
/// where it refuses the text.
pub uninterp spec fn url_parse(text: Seq<char>) -> Result<UrlView, Seq<char>>;

/// Why a URL is refused whose serialization does not parse to itself.
pub const NO_CANONICAL_FORM: &'static str = "the URL has no canonical form";

/// The URL that a text stands for, or why it stands for none. The URL is
/// what the serialization of the parsed text parses to, where that has the
/// same serialization; so its serialization parses to it.
pub open spec fn url_checked(text: Seq<char>) -> Result<UrlView, Seq<char>> {
    match url_parse(text) {
        Ok(first) => match url_parse(first.text) {
            Ok(second) => if second.text == first.text {
                Ok(second)
            } else {
                Err(NO_CANONICAL_FORM@)
            },
            Err(message) => Err(message),
        },
        Err(message) => Err(message),
    }
}

/// The URL that a text stands for.
pub open spec fn url_canonical(text: Seq<char>) -> Option<UrlView> {
    match url_checked(text) {
        Ok(url) => Some(url),
        Err(_) => None,
    }
}

/// The failure for a text that stands for no URL: it holds the text and,
/// where the parser refuses the text, the parser's message.
pub open spec fn invalid_url(text: Seq<char>) -> Failure {
    Failure::InvalidUrl(
        text,
        match url_checked(text) {
            Ok(_) => Seq::empty(),
            Err(message) => message,
        },
    )
}

/// The URL is in canonical form: its serialization parses to it.
pub open spec fn is_canonical(url: UrlView) -> bool {
    url_canonical(url.text) == Some(url)
}

/// Calls `url::Url::parse` and reads from the URL its serialization
/// (`From<Url> for String`), `scheme`, `host_str`, `port` and the slice from
/// `Position::BeforePath` on; of an error it takes the message (`to_string`).
/// The contract only gives the outcome its name.
#[verifier::external_body]
fn parse_url(text: &str) -> (r: Result<UrlParts, String>)
    ensures
        match r {
            Ok(p) => url_parse(text@) == Ok::<UrlView, Seq<char>>(p@),
            Err(message) => url_parse(text@) == Err::<UrlView, Seq<char>>(message@),
        },
{
    let u = url::Url::parse(text).map_err(|e| e.to_string())?;
    Ok(
        UrlParts {
            scheme: u.scheme().to_string(),
            host: u.host_str().map(String::from),
            port: u.port(),
            path_and_after: u[url::Position::BeforePath..].to_string(),
            text: String::from(u),
        },
    )
}

/// The serialization after `url::Url::set_scheme` on the URL that `url`
/// parses to; `None` where `url` does not parse or the scheme is refused.
pub uninterp spec fn url_with_scheme(url: Seq<char>, scheme: Seq<char>) -> Option<Seq<char>>;

/// The serialization after `url::Url::set_host` with a host on the URL that
/// `url` parses to; `None` where `url` does not parse or the host is refused.
pub uninterp spec fn url_with_host(url: Seq<char>, host: Seq<char>) -> Option<Seq<char>>;

/// The serialization after `url::Url::set_port` on the URL that `url` parses
/// to; `None` where `url` does not parse or the URL cannot have a port.
pub uninterp spec fn url_with_port(url: Seq<char>, port: Option<u16>) -> Option<Seq<char>>;

/// Calls `url::Url::parse`, then `set_scheme`, and takes the serialization.
/// The contract only gives the outcome its name.
#[verifier::external_body]
fn with_scheme(url: &str, scheme: &str) -> (r: Option<String>)
    ensures
        text_of(r) == url_with_scheme(url@, scheme@),
{
    let mut u = url::Url::parse(url).ok()?;
    u.set_scheme(scheme).ok()?;
    Some(String::from(u))
}

/// Calls `url::Url::parse`, then `set_host` with the host, and takes the
/// serialization. The contract only gives the outcome its name.
#[verifier::external_body]
fn with_host(url: &str, host: &str) -> (r: Option<String>)
    ensures
        text_of(r) == url_with_host(url@, host@),
{
    let mut u = url::Url::parse(url).ok()?;
    u.set_host(Some(host)).ok()?;
    Some(String::from(u))
}

/// Calls `url::Url::parse`, then `set_port`, and takes the serialization.
/// The contract only gives the outcome its name.
#[verifier::external_body]
fn with_port(url: &str, port: Option<u16>) -> (r: Option<String>)
    ensures
        text_of(r) == url_with_port(url@, port),
{
    let mut u = url::Url::parse(url).ok()?;
    u.set_port(port).ok()?;
    Some(String::from(u))
}

/// `url` with the scheme, host and port of `origin`, set in this order, and
/// with its own path, query and fragment. `None` where `origin` has no host,
/// where a part is refused, or where the outcome is not that URL.
pub open spec fn rewritten(url: UrlView, origin: UrlView) -> Option<UrlView> {
    match origin.host {
        Some(host) => match url_with_scheme(url.text, origin.scheme) {
            Some(a) => match url_with_host(a, host) {
                Some(b) => match url_with_port(b, origin.port) {
                    Some(c) => match url_canonical(c) {
                        Some(u) => if u.scheme == origin.scheme && u.host == origin.host && u.port
                            == origin.port && u.path_and_after == url.path_and_after {
                            Some(u)
                        } else {
                            None
                        },
                        None => None,
                    },
                    None => None,
                },
                None => None,
            },
            None => None,
        },
        None => None,
    }
}

fn same_port(a: Option<u16>, b: Option<u16>) -> (r: bool)
    ensures
        r == (a == b),
{
    match (a, b) {
        (Some(x), Some(y)) => x == y,
        (None, None) => true,
        _ => false,
    }
}

impl Clone for UrlParts {
    fn clone(&self) -> (r: Self)
        ensures
            r@ == self@,
    {
        UrlParts {
            text: self.text.clone(),
            scheme: self.scheme.clone(),
            host: match &self.host {
                Some(h) => Some(h.clone()),
                None => None,
            },
            port: self.port,
            path_and_after: self.path_and_after.clone(),
        }
    }
}

/// An absolute URL in canonical form: parsing its serialization gives it back.
#[derive(Debug, PartialEq, Eq, Hash)]
pub struct UrlSerde {
    parts: UrlParts,
}

impl View for UrlSerde {
    type V = UrlView;

    closed spec fn view(&self) -> UrlView {
        self.parts@
    }
}

impl Clone for UrlSerde {
    fn clone(&self) -> (r: Self)
        ensures
            r@ == self@,
            r.wf(),
    {
        proof {
            use_type_invariant(self);
        }
        UrlSerde { parts: self.parts.clone() }
    }
}

impl UrlSerde {
    /// The serialization parses to this very URL.
    #[verifier::type_invariant]
    pub closed spec fn wf(&self) -> bool {
        url_parse(self.parts.text@) == Ok::<UrlView, Seq<char>>(self.parts@)
    }

    /// A well-formed value holds a URL in canonical form.
    pub proof fn lemma_wf(&self)
        requires
            self.wf(),
        ensures
            is_canonical(self@),
    {
    }

    /// Parses an absolute URL. Fails with `InvalidUrl`, which holds the text
    /// and the parser's message, where the parser refuses the text. The
    /// serialization is parsed once more, so that the URL held is what its
    /// serialization parses to; should that ever give another serialization,
    /// the failure holds `NO_CANONICAL_FORM`.
    pub fn parse(text: &str) -> (r: Result<UrlSerde, SitemapError>)
        ensures
            match r {
                Ok(u) => u.wf() && url_canonical(text@) == Some(u@) && is_canonical(u@),
                Err(e) => url_canonical(text@) is None && e@ == invalid_url(text@),
            },
    {
        match parse_url(text) {
            Ok(first) => {
                match parse_url(first.text.as_str()) {
                    Ok(second) => {
                        if second.text == first.text {
                            Ok(UrlSerde { parts: second })
                        } else {
                            Err(
                                SitemapError::InvalidUrl {
                                    text: text.to_owned(),
                                    reason: NO_CANONICAL_FORM.to_owned(),
                                },
                            )
                        }
                    },
                    Err(reason) => Err(SitemapError::InvalidUrl { text: text.to_owned(), reason }),
                }
            },
            Err(reason) => Err(SitemapError::InvalidUrl { text: text.to_owned(), reason }),
        }
    }

    /// The serialization of the URL.
    pub fn as_str(&self) -> (r: &str)
        ensures
            r@ == self@.text,
    {
        self.parts.text.as_str()
    }

    pub fn scheme(&self) -> (r: &str)
        ensures
            r@ == self@.scheme,
    {
        self.parts.scheme.as_str()
    }

    pub fn host(&self) -> (r: Option<&str>)
        ensures
            match r {
                Some(h) => self@.host == Some(h@),
                None => self@.host is None,
            },
    {
        match &self.parts.host {
            Some(h) => Some(h.as_str()),
            None => None,
        }
    }

    pub fn port(&self) -> (r: Option<u16>)
        ensures
            r == self@.port,
    {
        self.parts.port
    }

    /// Path, query and fragment as they stand in the serialization.
    pub fn path_and_after(&self) -> (r: &str)
        ensures
            r@ == self@.path_and_after,
    {
        self.parts.path_and_after.as_str()
    }

    /// This URL with the scheme, host and port of `origin`, and with its own
    /// path, query and fragment.
    pub fn with_origin_of(&self, origin: &UrlSerde) -> (r: Option<UrlSerde>)
        ensures
            match r {
                Some(u) => rewritten(self@, origin@) == Some(u@) && u.wf() && is_canonical(u@),
                None => rewritten(self@, origin@) is None,
            },
    {
        let host = match &origin.parts.host {
            Some(h) => h,
            None => {
                return None;
            },
        };
        let a = match with_scheme(self.parts.text.as_str(), origin.parts.scheme.as_str()) {
            Some(a) => a,
            None => {
                return None;
            },
        };
        let b = match with_host(a.as_str(), host.as_str()) {
            Some(b) => b,
            None => {
                return None;
            },
        };
        let c = match with_port(b.as_str(), origin.parts.port) {
            Some(c) => c,
            None => {
                return None;
            },
        };
        match UrlSerde::parse(c.as_str()) {
            Ok(u) => {
                if u.parts.scheme == origin.parts.scheme && same_optional_text(
                    &u.parts.host,
                    &origin.parts.host,
                ) && same_port(u.parts.port, origin.parts.port) && u.parts.path_and_after
                    == self.parts.path_and_after {
                    Some(u)
                } else {
                    None
                }
            },
            Err(_) => None,
        }
    }

    /// Whether two URLs have the same serialization, which is how URLs compare.
    pub fn same_url(&self, other: &UrlSerde) -> (r: bool)
        ensures
            r == (self@.text == other@.text),
    {
        self.parts.text == other.parts.text
    }

    /// Whether this URL comes no later than `other` in the order of serializations.
    pub fn le(&self, other: &UrlSerde) -> (r: bool)
        ensures
            r == text_le(self@.text, other@.text),
    {
        str_le(self.parts.text.as_str(), other.parts.text.as_str())
    }
}

} // verus!

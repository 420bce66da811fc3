//! The failures that the library reports.

use vstd::prelude::*;
use vstd::string::StringExecFns;

verus! {

/// Why an operation on a sitemap failed.
#[derive(Debug, Clone, PartialEq, Eq)]
pub enum SitemapError {
    /// `text` is not an absolute URL; `reason` is the URL parser's message.
    InvalidUrl { text: String, reason: String },
    /// A URL whose scheme is neither `http` nor `https` where one of them is required.
    UnsupportedScheme { scheme: String },
    /// A `url` element without a `loc` child.
    MissingLocation,
    /// `text` is not a timestamp; `reason` is the timestamp parser's message.
    TimestampParseError { text: String, reason: String },
    /// The XML is not well formed, or not of the expected shape.
    XmlSyntaxError { reason: String },
    /// A file or the network failed while a document was fetched.
    IoError { reason: String },
}

/// A failure as contracts see it.
pub enum Failure {
    /// The text and the reason.
    InvalidUrl(Seq<char>, Seq<char>),
    UnsupportedScheme(Seq<char>),
    MissingLocation,
    /// The text and the reason.
    TimestampParseError(Seq<char>, Seq<char>),
    /// The reason.
    XmlSyntaxError(Seq<char>),
    /// The reason.
    IoError(Seq<char>),
}

impl View for SitemapError {
    type V = Failure;

    open spec fn view(&self) -> Failure {
        match self {
            SitemapError::InvalidUrl { text, reason } => Failure::InvalidUrl(text@, reason@),
            SitemapError::UnsupportedScheme { scheme } => Failure::UnsupportedScheme(scheme@),
            SitemapError::MissingLocation => Failure::MissingLocation,
            SitemapError::TimestampParseError { text, reason } => Failure::TimestampParseError(
                text@,
                reason@,
            ),
            SitemapError::XmlSyntaxError { reason } => Failure::XmlSyntaxError(reason@),
            SitemapError::IoError { reason } => Failure::IoError(reason@),
        }
    }
}

impl SitemapError {
    /// The text of the message for this failure.
    pub open spec fn message_text(&self) -> Seq<char> {
        match self {
            SitemapError::InvalidUrl { reason, .. } => reason@,
            SitemapError::UnsupportedScheme { scheme } => "invalid scheme: "@ + scheme@,
            SitemapError::MissingLocation => "page URL is missing"@,
            SitemapError::TimestampParseError { text, reason } => "failed to deserialize `"@
                + text@ + "`: "@ + reason@,
            SitemapError::XmlSyntaxError { reason } => reason@,
            SitemapError::IoError { reason } => reason@,
        }
    }

    /// A message for people. A timestamp failure quotes the offending text.
    pub fn message(&self) -> (r: String)
        ensures
            r@ == self.message_text(),
    {
        match self {
            SitemapError::InvalidUrl { reason, .. } => reason.clone(),
            SitemapError::UnsupportedScheme { scheme } => {
                String::from_str("invalid scheme: ").concat(scheme.as_str())
            },
            SitemapError::MissingLocation => String::from_str("page URL is missing"),
            SitemapError::TimestampParseError { text, reason } => {
                String::from_str("failed to deserialize `").concat(text.as_str()).concat(
                    "`: ",
                ).concat(reason.as_str())
            },
            SitemapError::XmlSyntaxError { reason } => reason.clone(),
            SitemapError::IoError { reason } => reason.clone(),
        }
    }
}

} // verus!

//! UTC timestamps of second precision with their RFC 3339 text.

use crate::error::{Failure, SitemapError};
use vstd::prelude::*;

verus! {

/// The text that chrono writes for the instant `secs` seconds after the Unix
/// epoch, in RFC 3339 form with whole seconds and `Z`; `None` where chrono
/// cannot represent the instant.
pub uninterp spec fn rfc3339_text(secs: int) -> Option<Seq<char>>;

/// The instant, in seconds after the Unix epoch, that chrono reads from an
/// RFC 3339 text, or the parser's message where it refuses the text.
pub uninterp spec fn rfc3339_seconds(text: Seq<char>) -> Result<int, Seq<char>>;

/// Why a text is refused whose instant has no text that reads back as it.
pub const NO_EXACT_TEXT: &'static str = "the instant has no RFC 3339 text";

/// Calls `chrono::DateTime::from_timestamp` with no nanoseconds and
/// `to_rfc3339_opts` with `SecondsFormat::Secs` and `Z`. The contract only
/// gives the outcome its name.
#[verifier::external_body]
fn format_rfc3339(secs: i64) -> (r: Option<String>)
    ensures
        match r {
            Some(t) => rfc3339_text(secs as int) == Some(t@),
            None => rfc3339_text(secs as int) is None,
        },
{
    chrono::DateTime::from_timestamp(secs, 0).map(
        |t| t.to_rfc3339_opts(chrono::SecondsFormat::Secs, true),
    )
}

/// Calls `chrono::DateTime::parse_from_rfc3339` and `timestamp`, which drops
/// the fraction of a second; of an error it takes the message (`to_string`).
/// The contract only gives the outcome its name.
#[verifier::external_body]
fn parse_rfc3339(text: &str) -> (r: Result<i64, String>)
    ensures
        match r {
            Ok(s) => rfc3339_seconds(text@) == Ok::<int, Seq<char>>(s as int),
            Err(message) => rfc3339_seconds(text@) == Err::<int, Seq<char>>(message@),
        },
{
    chrono::DateTime::parse_from_rfc3339(text).map(|t| t.timestamp()).map_err(|e| e.to_string())
}

/// The instant has a text, and the text reads back as the instant.
pub open spec fn is_timestamp(secs: int) -> bool {
    match rfc3339_text(secs) {
        Some(t) => rfc3339_seconds(t) == Ok::<int, Seq<char>>(secs),
        None => false,
    }
}

/// The instant that a text stands for, where the instant is a timestamp, or
/// why the text stands for none.
pub open spec fn timestamp_checked(text: Seq<char>) -> Result<int, Seq<char>> {
    match rfc3339_seconds(text) {
        Ok(s) => if is_timestamp(s) {
            Ok(s)
        } else {
            Err(NO_EXACT_TEXT@)
        },
        Err(message) => Err(message),
    }
}

/// The instant that a text stands for.
pub open spec fn timestamp_of(text: Seq<char>) -> Option<int> {
    match timestamp_checked(text) {
        Ok(s) => Some(s),
        Err(_) => None,
    }
}

/// The failure for a text that stands for no timestamp: it holds the text
/// and, where the parser refuses the text, the parser's message.
pub open spec fn invalid_timestamp(text: Seq<char>) -> Failure {
    Failure::TimestampParseError(
        text,
        match timestamp_checked(text) {
            Ok(_) => Seq::empty(),
            Err(message) => message,
        },
    )
}

/// A UTC instant of second precision, with the text that stands for it.
#[derive(Debug, PartialEq, Eq, Hash)]
pub struct DateTimeSerde {
    secs: i64,
    text: String,
}

impl View for DateTimeSerde {
    type V = int;

    /// Seconds after the Unix epoch.
    closed spec fn view(&self) -> int {
        self.secs as int
    }
}

impl Clone for DateTimeSerde {
    fn clone(&self) -> (r: Self)
        ensures
            r@ == self@,
            r.wf(),
    {
        proof {
            use_type_invariant(self);
        }
        DateTimeSerde { secs: self.secs, text: self.text.clone() }
    }
}

impl DateTimeSerde {
    /// The text held is the text of the instant, and reads back as the instant.
    #[verifier::type_invariant]
    pub closed spec fn wf(&self) -> bool {
        &&& rfc3339_text(self.secs as int) == Some(self.text@)
        &&& rfc3339_seconds(self.text@) == Ok::<int, Seq<char>>(self.secs as int)
    }

    /// A well-formed value holds a timestamp.
    pub proof fn lemma_wf(&self)
        requires
            self.wf(),
        ensures
            is_timestamp(self@),
    {
    }

    /// The instant `secs` seconds after the Unix epoch; `None` where it has no
    /// text that reads back as the same instant.
    pub fn from_timestamp(secs: i64) -> (r: Option<DateTimeSerde>)
        ensures
            match r {
                Some(t) => t@ == secs && t.wf(),
                None => !is_timestamp(secs as int),
            },
    {
        match format_rfc3339(secs) {
            Some(text) => {
                match parse_rfc3339(text.as_str()) {
                    Ok(back) => {
                        if back == secs {
                            Some(DateTimeSerde { secs, text })
                        } else {
                            None
                        }
                    },
                    Err(_) => None,
                }
            },
            None => None,
        }
    }

    /// Reads an RFC 3339 text. Fails with `TimestampParseError`, which holds
    /// the text and the parser's message, where the parser refuses the text,
    /// and with `NO_EXACT_TEXT` for its reason where the instant is no timestamp.
    pub fn parse(text: &str) -> (r: Result<DateTimeSerde, SitemapError>)
        ensures
            match r {
                Ok(t) => timestamp_of(text@) == Some(t@) && t.wf(),
                Err(e) => timestamp_of(text@) is None && e@ == invalid_timestamp(text@),
            },
    {
        match parse_rfc3339(text) {
            Ok(secs) => {
                match DateTimeSerde::from_timestamp(secs) {
                    Some(t) => Ok(t),
                    None => Err(
                        SitemapError::TimestampParseError {
                            text: text.to_owned(),
                            reason: NO_EXACT_TEXT.to_owned(),
                        },
                    ),
                }
            },
            Err(reason) => Err(SitemapError::TimestampParseError { text: text.to_owned(), reason }),
        }
    }

    /// Seconds after the Unix epoch.
    pub fn timestamp(&self) -> (r: i64)
        ensures
            r == self@,
    {
        self.secs
    }

    /// The RFC 3339 text of the instant, with whole seconds and `Z`.
    pub fn to_rfc3339(&self) -> (r: &str)
        ensures
            rfc3339_text(self@) == Some(r@),
    {
        proof {
            use_type_invariant(self);
        }
        self.text.as_str()
    }
}

} // verus!

//! Sitemap documents: their XML events, reconciliation of a fresh document
//! with a published one, canonical ordering and domain rewriting.

pub mod codec;
pub mod content;
pub mod domain;
pub mod error;
pub mod events;
pub mod index;
pub mod laws;
pub mod order;
pub mod round_trip;
pub mod sitemap;
pub mod source;
pub mod text;
pub mod timestamp;
pub mod web_url;
pub mod wire;

pub use crate::codec::{decode, encode};
pub use crate::content::{content_hash, PageContent};
pub use crate::error::SitemapError;
pub use crate::events::{read_events, write_events, XmlAttribute, XmlEvent, XmlNamespace};
pub use crate::sitemap::{Page, Sitemap, UpdateInfo};
pub use crate::source::ImportSource;
pub use crate::timestamp::DateTimeSerde;
pub use crate::web_url::UrlSerde;
pub use crate::wire::{Meta, PageSerde, SitemapSerde};

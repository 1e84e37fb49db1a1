//! Verified core of a news-briefing service: reading feed entries into
//! headlines, word-piece tokenization of headlines, extraction of
//! non-overlapping clusters of related headlines, and report building.

pub mod community;
pub mod embedding;
pub mod fetcher;
pub mod report;
pub mod text;
pub mod watchdog;

pub use vstd::hash_map::StringHashMap;

//! Feed enrichment: scan a syndication feed for the articles it links to,
//! pull the content block out of each fetched article, and write the feed
//! back with that content embedded in every item.

pub mod cache;
pub mod extract;
pub mod fetch;
pub mod options;
pub mod parse;
pub mod pass;
pub mod rewrite;
pub mod routes;
pub mod scan;
pub mod xml;

pub use options::{FurssOptions, LogLevel};

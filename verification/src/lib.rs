//! Scrape-and-aggregate engine for a ZFS metrics exporter.
//!
//! The library resolves which pools, datasets and snapshot patterns to
//! watch, parses the tabular output of the external inventory commands,
//! reduces snapshot listings to the latest creation time per label, and
//! computes the gauge writes for one scrape pass.  Running the external
//! commands and serving the gauges is left to the surrounding binary.

pub mod config;
pub mod options;
pub mod pattern;
pub mod scraper;
pub mod stats;
pub mod strmap;
pub mod text;

//! Web Radar: inbound and outbound domain links from Common Crawl
//! domain-level web graphs, with the parsing, indexing and lookup logic
//! proved correct by Verus.

pub mod lines;
pub mod chunks;
pub mod text;
pub mod reverse;
pub mod seen;
pub mod number;
pub mod path;
pub mod data_source;
pub mod config;
pub mod index;
pub mod vertices;
pub mod order;
pub mod binary;
pub mod edges;
pub mod inbound;
pub mod ranks;
pub mod query;
pub mod cli;
pub mod desktop;
pub mod audit;
pub mod seo;
pub mod scan;
pub mod jobs;
pub mod meta;

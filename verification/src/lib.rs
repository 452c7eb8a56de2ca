//! Repository activity metrics: the verified core.
pub mod aggregate;
pub mod catalog;
pub mod collect;
pub mod config;
pub mod dates;
pub mod daymap;
pub mod forge;
pub mod gitcache;
pub mod json;
pub mod metrics;
pub mod namemap;
pub mod runner;
pub mod tally;
pub mod text;

//! Frontier and link handling for a single-host web crawler.

pub mod crawl;
pub mod frontier;
pub mod link;
pub mod page;
pub mod site;
pub mod spider;
mod text;
pub mod urls;

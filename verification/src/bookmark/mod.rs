//! Bookmarks: kept once for each page, searched, and enriched with what the pages say.

pub mod import;
pub mod enrichment;
pub mod enriched;
pub mod fetch;
pub mod page;
pub mod placed;
pub mod said;
pub mod search;
pub mod store;
pub mod tree;
pub mod url;

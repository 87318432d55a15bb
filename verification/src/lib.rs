//! A documentation crawler's decision logic: URL handling, link extraction,
//! robots.txt checks, storage paths, address filtering and the crawl frontier.
pub mod text;
pub mod weburl;
pub mod split;
pub mod paths;
pub mod robots;
pub mod scan;
pub mod extract;
pub mod page;
pub mod keyset;
pub mod frontier;
pub mod netguard;

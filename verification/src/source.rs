//! Scraping sources: the outcome of a scrape and the platforms that can be
//! scraped.

use vstd::prelude::*;

pub mod github;

verus! {

/// The outcome of a full scrape of one source.
#[derive(Debug)]
pub struct ScrapeResult {
    /// How many new posts were stored.
    pub posts_fetched: i64,
    /// Where to resume an unfinished scrape; `None` once it has completed.
    pub cursor: Option<String>,
}

} // verus!

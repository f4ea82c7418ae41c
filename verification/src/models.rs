//! The records that the database holds: sources, posts, scrape log
//! entries, and summary counts.

use vstd::prelude::*;

verus! {

/// A configured scraping source: an account on a platform.
#[derive(Clone, Debug)]
pub struct Source {
    pub id: i64,
    pub platform: String,
    pub username: String,
    pub ai_cutoff_date: Option<String>,
    pub created_at: String,
}

/// A piece of writing by the user.
#[derive(Clone, Debug)]
pub struct Post {
    pub id: i64,
    pub source_id: i64,
    pub external_id: String,
    pub post_type: String,
    pub body: String,
    pub url: Option<String>,
    pub repo: Option<String>,
    pub created_at: String,
    pub likely_ai: bool,
    pub scraped_at: String,
}

/// One run of a scrape for a source.
#[derive(Clone, Debug)]
pub struct ScrapeLogEntry {
    pub id: i64,
    pub source_id: i64,
    pub started_at: String,
    pub finished_at: Option<String>,
    pub posts_fetched: i64,
    pub cursor: Option<String>,
}

/// Stats summary for display.
#[derive(Debug)]
pub struct Stats {
    pub total_posts: i64,
    pub authentic_posts: i64,
    pub likely_ai_posts: i64,
    pub by_type: Vec<(String, i64)>,
    pub by_source: Vec<(String, String, i64)>,
}

} // verus!

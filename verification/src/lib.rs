//! Voice-profile analysis of a person's own writing: text statistics,
//! example selection, and the decisions behind scraping and querying posts.

pub mod analyze;
pub mod generate;
pub mod models;
pub mod order;
pub mod query;
pub mod source;
pub mod store;
pub mod text;

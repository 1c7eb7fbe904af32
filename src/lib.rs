//! Finds a representative contact email for a website: a bounded,
//! host-scoped breadth-first crawl, email harvesting from page text, and a
//! deterministic ranking of the candidates.
pub mod batch;
pub mod cache;
pub mod crawl;
pub mod email;
pub mod sheets;
pub mod site;
pub mod text;

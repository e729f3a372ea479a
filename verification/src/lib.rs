//! Wallflower: a quiet reader for articles served through Freedium proxies.
//!
//! The library holds the reader's own logic: configuration rules, the
//! decoding of Freedium's `__data.json` payload, the rewriting of article
//! HTML, the plain-text and Markdown renderings, the search-query builder
//! and the decisions of the fetch workflow.
pub mod text;
pub mod config;
pub mod export;
pub mod freedium;
pub mod json;
pub mod medium;
pub mod render;
pub mod search;
pub mod workflow;

pub use config::{AppConfig, ConfigError, Theme};
pub use freedium::{Article, FetchError};

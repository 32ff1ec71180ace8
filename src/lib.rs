//! Prompt search and ranking for a snippet launcher: tag canonicalisation and extraction,
//! the per-directory tags metadata, the construction of indexed entries, previews, the
//! ranked query engine and the file name rule for new prompts.

pub mod config;
pub mod edit;
pub mod filename;
pub mod index;
pub mod lifecycle;
pub mod preview;
pub mod score;
pub mod search;
pub mod service;
pub mod tag_order;
pub mod tags;
pub mod tags_meta;
pub mod text;
pub mod usecase;

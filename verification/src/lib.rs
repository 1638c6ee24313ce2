//! A verified tag-resolution engine for Vim/NeoVim help documentation.
//!
//! The crate builds an in-memory lookup table from the lines of a
//! tab-separated tags file, resolves user-typed topics through four
//! progressively fuzzier normalization tiers, merges results from
//! several documentation flavors with a preference-aware tie-break,
//! and renders canonical documentation URLs.

pub mod chars;
pub mod scan;
pub mod tagsdb;
pub mod tagsearch;
pub mod utils;

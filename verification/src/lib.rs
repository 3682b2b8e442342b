//! Markdown slide decks to PPTX packages.
//!
//! `markdown::parse_markdown` reads a deck into the slide model of `model`;
//! `pptx` builds the parts of the package and the package itself, given the
//! XML of each slide and its images; `diagnostics` says what is reported.
pub mod archive;
pub mod cli;
pub mod diagnostics;
pub mod error;
pub mod events;
pub mod inline_math;
pub mod markdown;
pub mod model;
pub mod paths;
pub mod pptx;
pub mod segment;
pub mod source_blocks;
pub mod style;
pub mod text;

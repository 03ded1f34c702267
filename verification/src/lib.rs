//! Prepend module-level documentation comments to source files.
//!
//! The library has two parts: a parser for a small configuration format
//! that maps a Markdown file path to a list of target file paths, and a
//! line-based merger that combines a Markdown document with a target
//! file's existing lines, replacing any previously generated
//! documentation comment lines.

pub mod config;
pub mod merge;
pub mod text;

pub use config::parse_array;
pub use config::parse_config;
pub use config::parse_line;
pub use config::parse_string;
pub use config::ParseError;
pub use merge::merge_contents;

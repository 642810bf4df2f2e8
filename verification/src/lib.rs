//! A project-scaffolding renderer: substitutes `{{variable}}` placeholders
//! from a flat string dictionary into template file names, directory names
//! and file contents, and plans the materialization of a template tree.
//!
//! [`tokenize`] scans one text into literal and variable tokens; [`render`]
//! folds a token sequence against the [`dict`]ionary; [`materialize`] walks
//! a template tree in lexicographic order, renders every path segment and
//! file body independently, and rejects any rendered segment that holds a
//! path separator. [`error`] is the closed taxonomy of failures.

pub mod dict;
pub mod error;
pub mod materialize;
pub mod render;
pub mod tokenize;
pub mod views;

pub use dict::{parse_data, Dict};
pub use error::Error;
pub use materialize::{handle_directory, handle_file, Entry, OutputFile, Segment};
pub use render::render;
pub use tokenize::{parse_tmpl, Token};

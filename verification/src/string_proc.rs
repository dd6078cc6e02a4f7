//! Text processing: case conversion of identifiers and normalization of
//! paths.
pub mod format_processer;
pub mod format_path;

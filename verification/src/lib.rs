//! Core logic of a centralized version control system for binary assets:
//! index sources, sheet mappings and their binary storage format, file
//! chunking for the content store, and a few text utilities.

pub mod asset;
pub mod compare;
pub mod config;
pub mod constants;
pub mod hex_display;
pub mod index_source;
pub mod mapping;
pub mod mapping_macros;
pub mod mapping_pattern;
pub mod sheet;
pub mod sheet_tree;
pub mod storage;
pub mod string_proc;
pub mod text;
pub mod workspace;

//! Version 1 of the sheet storage format.

pub mod bytes;
pub mod constants;
pub mod format;
pub mod reader;
pub mod lookup;
pub mod order;
pub mod roundtrip;
pub mod writer;

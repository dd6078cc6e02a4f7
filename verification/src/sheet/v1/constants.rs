//! Sizes of the fixed parts of the version-1 sheet format.
//!
//! Header (15 bytes): `[SHEET_VERSION: u8] [MAPPING_BUCKET_COUNT: u16]
//! [INDEX_COUNT: u32] [OFFSET_MAPPING_DIR: u32] [OFFSET_INDEX_TABLE: u32]`.
//!
//! Mapping directory entry (12 bytes): `[BUCKET_HASH_PREFIX: u32]
//! [BUCKET_OFFSET: u32] [BUCKET_LENGTH: u32]`.
//!
//! Mapping bucket entry: `[KEY_LEN: u8] [FORWARD_TYPE: u8]
//! [FORWARD_INFO_LEN: u8] [KEY_BYTES] [FORWARD_INFO_BYTES] [INDEX_OFFSET: u32]`.
//!
//! Index table entry (10 bytes): `[INDEX_ID: u32] [INDEX_VERSION: u16]
//! [REMOTE: u8] [RESERVED: 3 bytes]`.
//!
//! All integers are little-endian.
use vstd::prelude::*;

verus! {

/// Version byte of the format written here.
pub const CURRENT_SHEET_VERSION: u8 = 1;

/// Size of the header.
pub const HEADER_SIZE: usize = 15;

/// Size of one mapping directory entry.
pub const MAPPING_DIR_ENTRY_SIZE: usize = 12;

/// Smallest size that a bucket entry is checked against before its header
/// is read.
pub const MAPPING_BUCKET_MIN_SIZE: usize = 7;

/// Size of one index table entry.
pub const INDEX_ENTRY_SIZE: usize = 10;

} // verus!

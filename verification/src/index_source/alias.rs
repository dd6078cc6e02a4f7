//! Aliases from local to remote index ids: the remote id of local id `n`
//! is stored little-endian in entry `n % 65536` of alias file `n / 65536`;
//! an entry of zero means no alias.
use vstd::prelude::*;
use crate::index_source::IndexSource;

verus! {

/// Entries in one alias file.
pub const MAX_ENTRIES_PER_FILE: u32 = 65536;

/// Bytes in one alias entry.
pub const ENTRY_SIZE: usize = 4;

/// Bytes in one alias file.
pub const FILE_SIZE: u64 = 262144;

/// Error of the alias store.
#[derive(Debug)]
pub enum IDAliasError {
    Io(std::io::Error),
    InvalidAliasFile(String),
    AliasNotFound(u32),
    InvalidOffset(u64),
    FileSizeMismatch(u64, u64),
}

/// The alias file that holds the entry of a local id, and the entry's byte
/// offset in it.
pub fn get_file_path_and_offset(id: u32) -> (r: (u32, u64))
    ensures
        r.0 == id / 65536,
        r.1 == (id % 65536) * 4,
{
    let file_index = id / MAX_ENTRIES_PER_FILE;
    let offset_within_file = id % MAX_ENTRIES_PER_FILE;
    let byte_offset = (offset_within_file as u64) * (ENTRY_SIZE as u64);
    (file_index, byte_offset)
}

/// The remote id that an alias entry holds for a local id: a zero entry
/// means the local id has no alias.
pub fn remote_id_of_entry(local_id: u32, entry: u32) -> (r: Result<u32, IDAliasError>)
    ensures
        entry == 0 ==> (r matches Err(IDAliasError::AliasNotFound(id)) && id == local_id),
        entry != 0 ==> (r matches Ok(id) && id == entry),
{
    if entry == 0 {
        Err(IDAliasError::AliasNotFound(local_id))
    } else {
        Ok(entry)
    }
}

/// The entry value that deletes an alias.
pub fn deleted_entry() -> (r: u32)
    ensures
        r == 0,
{
    0
}

impl IndexSource {
    /// The index source moved to the remote namespace under `remote_id`;
    /// an index source that is remote already stays as it is.
    pub fn with_remote_id(self, remote_id: u32) -> (r: IndexSource)
        ensures
            self.spec_remote() ==> r == self,
            !self.spec_remote() ==> r.spec_remote() && r.spec_id() == remote_id && r.spec_ver()
                == self.spec_ver(),
    {
        if self.is_remote() {
            self
        } else {
            IndexSource::new(true, remote_id, self.version())
        }
    }
}

/// Every local id has its own alias slot: different ids never share a file
/// and offset.
pub proof fn lemma_alias_slots_distinct(a: u32, b: u32)
    requires
        a != b,
    ensures
        a / 65536 != b / 65536 || (a % 65536) * 4 != (b % 65536) * 4,
{
    assert(a == (a / 65536) * 65536 + a % 65536) by (nonlinear_arith);
    assert(b == (b / 65536) * 65536 + b % 65536) by (nonlinear_arith);
}

} // verus!

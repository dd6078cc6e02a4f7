//! Reading sheet data in the current format.
use vstd::prelude::*;
use crate::mapping::{LocalMappingForward, Mapping};
use crate::sheet::error::ReadSheetDataError;
use crate::sheet::v1::format::{read_mapping_spec, read_sheet_spec};
use crate::sheet::v1::reader::{format_err, lookup_result};
use crate::sheet::SheetData;
use crate::text::strs_view;

verus! {

/// Reconstruct complete sheet data from the bytes of a sheet.
pub fn read_sheet_data(full_sheet_data: &[u8]) -> (r: Result<SheetData, ReadSheetDataError>)
    ensures
        match read_sheet_spec(full_sheet_data@) {
            Ok(ms) => r matches Ok(d) && d@ == ms && d.wf(),
            Err(e) => r == format_err::<SheetData>(e),
        },
{
    crate::sheet::v1::reader::read_sheet_data(full_sheet_data)
}

/// Read the mapping of one node from the bytes of a sheet.
pub fn read_mapping<'a>(full_sheet_data: &'a [u8], node: &[&str]) -> (r: Result<
    Option<(Mapping<'a>, LocalMappingForward)>,
    ReadSheetDataError,
>)
    ensures
        lookup_result(r, read_mapping_spec(full_sheet_data@, strs_view(node@))),
{
    crate::sheet::v1::reader::read_mapping(full_sheet_data, node)
}

} // verus!

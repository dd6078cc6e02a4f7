//! Writing sheet data in the current format.
use vstd::prelude::*;
use crate::sheet::v1::format::sheet_bytes;
use crate::sheet::SheetData;

verus! {

/// Convert sheet data to the bytes of a sheet.
pub fn convert_sheet_data_to_bytes(sheet_data: SheetData) -> (r: Vec<u8>)
    ensures
        r@ == sheet_bytes(sheet_data@),
{
    crate::sheet::v1::writer::convert_sheet_data_to_bytes(sheet_data)
}

} // verus!

//! Errors of reading and editing sheets.
use vstd::prelude::*;
use crate::sheet::v1::format::SheetFormatError;

verus! {

/// Error of reading sheet data: the bytes are not a readable sheet.
#[derive(Debug, Clone, Copy, PartialEq, Eq, Structural)]
pub enum ReadSheetDataError {
    IOErr(SheetFormatError),
}

/// Error of applying edits.
#[derive(Debug)]
pub enum SheetApplyError {
    UnexpectedAlreadyExist(String),
    UnexpectedNotFound(String),
}

/// Error of parsing a sheet.
#[derive(Debug)]
pub enum ParseSheetError {
    ParseMappingError(crate::mapping::parse::ParseMappingError),
    SheetEditError(crate::sheet::SheetEditError),
    SheetApplyError(SheetApplyError),
}

} // verus!

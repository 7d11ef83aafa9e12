//! The closed set of failure kinds a decode can report.

use vstd::prelude::*;

verus! {

pub(crate) const TAG_LITERAL: u8 = 0x00;

pub(crate) const TAG_COPY1: u8 = 0x01;

pub(crate) const TAG_COPY2: u8 = 0x02;

pub(crate) const TAG_COPY4: u8 = 0x03;

#[derive(Debug, Clone, Copy, PartialEq, Eq, Structural)]
pub enum SnappyError {
    NoError,
    EncodeTooLarge,
    DecodeTooLarge,
    DstTooSmall,
    Corrupt,
    Unsupported,
    UnsupportedLiteralLength,
}

/// A fixed human-readable message for each error kind.
pub fn str_of_error(err: &SnappyError) -> (r: &'static str)
    ensures
        err is NoError ==> r@ == "snappy: none error"@,
        err is EncodeTooLarge ==> r@ == "snappy:  encode block is too large"@,
        err is DecodeTooLarge ==> r@ == "snappy:  decode block is too large"@,
        err is DstTooSmall ==> r@ == "snappy: dst len is too small"@,
        err is Corrupt ==> r@ == "snappy: corrupt input"@,
        err is Unsupported ==> r@ == "snappy: unsupported input"@,
        err is UnsupportedLiteralLength ==> r@ == "snappy: unsupported literal length"@,
{
    match err {
        SnappyError::NoError => "snappy: none error",
        SnappyError::EncodeTooLarge => "snappy:  encode block is too large",
        SnappyError::DecodeTooLarge => "snappy:  decode block is too large",
        SnappyError::DstTooSmall => "snappy: dst len is too small",
        SnappyError::Corrupt => "snappy: corrupt input",
        SnappyError::Unsupported => "snappy: unsupported input",
        SnappyError::UnsupportedLiteralLength => "snappy: unsupported literal length",
    }
}

} // verus!

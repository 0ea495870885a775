use vstd::prelude::*;

use crate::text::{dec_text, hex_text, zero_pad};

verus! {

/// Errors reported while reading, decompressing or applying an RTPatch file.
#[derive(Debug)]
pub enum RtpError {
    InvalidMagic(Vec<u8>),
    UnsupportedVersion(u16),
    UnsupportedFlags(u32),
    UnexpectedEof { offset: usize, needed: usize, available: usize },
    InvalidRecord { index: usize, detail: String },
    SourceNotFound { filename: String, path: String },
    ChecksumMismatch { filename: String, expected: u32, actual: u32 },
    DecompressError { filename: String, detail: String },
    ApplyError { filename: String, detail: String },
}

/// The mathematical model of an `RtpError`: strings and byte buffers by their contents.
pub enum ErrorView {
    InvalidMagic(Seq<u8>),
    UnsupportedVersion(u16),
    UnsupportedFlags(u32),
    UnexpectedEof { offset: int, needed: int, available: int },
    InvalidRecord { index: int, detail: Seq<char> },
    SourceNotFound { filename: Seq<char>, path: Seq<char> },
    ChecksumMismatch { filename: Seq<char>, expected: u32, actual: u32 },
    DecompressError { filename: Seq<char>, detail: Seq<char> },
    ApplyError { filename: Seq<char>, detail: Seq<char> },
}

impl View for RtpError {
    type V = ErrorView;

    open spec fn view(&self) -> ErrorView {
        match self {
            RtpError::InvalidMagic(m) => ErrorView::InvalidMagic(m@),
            RtpError::UnsupportedVersion(v) => ErrorView::UnsupportedVersion(*v),
            RtpError::UnsupportedFlags(f) => ErrorView::UnsupportedFlags(*f),
            RtpError::UnexpectedEof { offset, needed, available } => ErrorView::UnexpectedEof {
                offset: *offset as int,
                needed: *needed as int,
                available: *available as int,
            },
            RtpError::InvalidRecord { index, detail } => ErrorView::InvalidRecord {
                index: *index as int,
                detail: detail@,
            },
            RtpError::SourceNotFound { filename, path } => ErrorView::SourceNotFound {
                filename: filename@,
                path: path@,
            },
            RtpError::ChecksumMismatch { filename, expected, actual } =>
                ErrorView::ChecksumMismatch { filename: filename@, expected: *expected, actual: *actual },
            RtpError::DecompressError { filename, detail } => ErrorView::DecompressError {
                filename: filename@,
                detail: detail@,
            },
            RtpError::ApplyError { filename, detail } => ErrorView::ApplyError {
                filename: filename@,
                detail: detail@,
            },
        }
    }
}

/// The text that `RtpError::UnexpectedEof` is displayed as, by its three fields: the offset
/// in hexadecimal padded to 8 digits, the two counts in decimal.
pub open spec fn eof_message(offset: usize, needed: usize, available: usize) -> Seq<char> {
    "unexpected end of data at offset 0x"@ + zero_pad(hex_text(offset as nat), 8) + ": need "@ + dec_text(
        needed as nat,
    ) + " bytes, "@ + dec_text(available as nat) + " available"@
}

/// Formats the message of an end-of-data error with `format!`:
/// "unexpected end of data at offset 0x{offset:08x}: need {needed} bytes, {available} available".
/// The contract states the text that these format specifiers produce.
#[verifier::external_body]
pub(crate) fn format_eof_message(offset: usize, needed: usize, available: usize) -> (s: String)
    ensures
        s@ == eof_message(offset, needed, available),
{
    format!("unexpected end of data at offset 0x{offset:08x}: need {needed} bytes, {available} available")
}

} // verus!

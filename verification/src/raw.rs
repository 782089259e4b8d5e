//! Camera RAW files: which files are read as RAW, and the choices of the
//! RAW development settings.
use vstd::prelude::*;

use crate::document::{byte_len, size_ok, side_ok, size_text, validate_size, SizeError};
use crate::path::{chars_of, extension_span, path_extension, same_ignoring_ascii_case, span_is_word};

verus! {

/// How the white balance of a RAW development is chosen.
#[derive(Clone, Copy, Debug, PartialEq, Eq, Structural)]
pub enum WhiteBalance {
    AsShot,
    Temperature,
    Custom,
}

impl Default for WhiteBalance {
    /// `AsShot`.
    fn default() -> (balance: Self)
        ensures
            balance == WhiteBalance::AsShot,
    {
        WhiteBalance::AsShot
    }
}

/// The shape of a local adjustment overlay.
#[derive(Clone, Copy, Debug, PartialEq, Eq, Structural)]
pub enum OverlayKind {
    Linear,
    Radial,
    Brush,
}

impl Default for OverlayKind {
    /// `Linear`.
    fn default() -> (kind: Self)
        ensures
            kind == OverlayKind::Linear,
    {
        OverlayKind::Linear
    }
}

/// The path names a file whose extension is `nef` or `nrw`, in any ASCII case.
pub open spec fn raw_path(path: Seq<char>) -> bool {
    path_extension(path) matches Some(e) && (same_ignoring_ascii_case(e, "nef"@) || same_ignoring_ascii_case(
        e,
        "nrw"@,
    ))
}

/// Whether the file at `path` is a Nikon RAW file, judged by its extension.
pub fn is_raw(path: &str) -> (raw: bool)
    ensures
        raw == raw_path(path@),
{
    let chars = chars_of(path);
    proof {
        reveal_strlit("nef");
        reveal_strlit("nrw");
    }
    match extension_span(&chars) {
        None => false,
        Some((start, end)) => span_is_word(&chars, start, end, "nef") || span_is_word(&chars, start, end, "nrw"),
    }
}

/// Largest accepted camera file, in bytes.
pub const MAX_RAW_BYTES: u64 = 536_870_912;

/// Longest accepted camera file name, in bytes.
pub const MAX_RAW_NAME_BYTES: usize = 16_384;

/// Why a RAW asset was refused.
#[derive(Clone, Copy, Debug, PartialEq, Eq)]
pub enum RawError {
    /// The file name is empty or longer than `MAX_RAW_NAME_BYTES`.
    InvalidFilename,
    /// The camera file is empty or longer than `MAX_RAW_BYTES`.
    MissingSource,
    /// The image size recorded for the file is refused.
    Size(SizeError),
}

/// The message shown for a refused RAW asset.
pub open spec fn raw_text(e: RawError) -> Seq<char> {
    match e {
        RawError::InvalidFilename => "Invalid RAW filename"@,
        RawError::MissingSource => "Missing or oversized RAW source"@,
        RawError::Size(e) => size_text(e),
    }
}

impl RawError {
    /// The message shown for the error.
    pub fn message(&self) -> (text: &'static str)
        ensures
            text@ == raw_text(*self),
    {
        match self {
            RawError::InvalidFilename => "Invalid RAW filename",
            RawError::MissingSource => "Missing or oversized RAW source",
            RawError::Size(e) => e.message(),
        }
    }
}

/// The verdict on a RAW asset's file: its name, the length of its bytes, and
/// the image size recorded for it, in that order.
pub open spec fn source_verdict(filename: Seq<char>, length: int, width: u32, height: u32) -> Result<(), RawError> {
    if filename.len() == 0 || byte_len(filename) > MAX_RAW_NAME_BYTES {
        Err(RawError::InvalidFilename)
    } else if length == 0 || length > MAX_RAW_BYTES {
        Err(RawError::MissingSource)
    } else if !size_ok(width, height) {
        Err(RawError::Size(if side_ok(width) && side_ok(height) { SizeError::TooManyPixels } else { SizeError::Dimensions }))
    } else {
        Ok(())
    }
}

/// Check the file of a RAW asset: `filename`, `length` bytes, and a recorded
/// size of `width` x `height`. Its development settings are checked apart.
pub fn check_source(filename: &str, length: u64, width: u32, height: u32) -> (result: Result<(), RawError>)
    ensures
        result == source_verdict(filename@, length as int, width, height),
{
    let bytes = filename.len();
    assert(bytes == byte_len(filename@));
    if filename.is_empty() || bytes > MAX_RAW_NAME_BYTES {
        return Err(RawError::InvalidFilename);
    }
    if length == 0 || length > MAX_RAW_BYTES {
        return Err(RawError::MissingSource);
    }
    match validate_size(width, height) {
        Err(e) => Err(RawError::Size(e)),
        Ok(()) => Ok(()),
    }
}

} // verus!

//! Choosing how a flattened image is written out.
use vstd::prelude::*;

use crate::path::{chars_of, extension_span, path_extension, same_ignoring_ascii_case, span_is_word};

verus! {

/// The image formats a document can be exported to.
#[derive(Clone, Copy, Debug, PartialEq, Eq, Structural)]
pub enum ExportFormat {
    Jpeg,
    Png,
    Tiff,
    WebP,
}

/// Why an export was refused.
#[derive(Clone, Copy, Debug, PartialEq, Eq, Structural)]
pub enum ExportError {
    /// The extension names none of the formats.
    UnsupportedFormat,
}

impl ExportError {
    /// The message shown for the error.
    pub fn message(&self) -> (text: &'static str)
        ensures
            text@ == "Export as PNG, JPEG, TIFF or WebP"@,
    {
        "Export as PNG, JPEG, TIFF or WebP"
    }
}

/// The format an extension asks for, compared without regard to ASCII case.
pub open spec fn format_for(extension: Seq<char>) -> Option<ExportFormat> {
    if same_ignoring_ascii_case(extension, "jpg"@) || same_ignoring_ascii_case(extension, "jpeg"@) {
        Some(ExportFormat::Jpeg)
    } else if same_ignoring_ascii_case(extension, "png"@) {
        Some(ExportFormat::Png)
    } else if same_ignoring_ascii_case(extension, "tif"@) || same_ignoring_ascii_case(extension, "tiff"@) {
        Some(ExportFormat::Tiff)
    } else if same_ignoring_ascii_case(extension, "webp"@) {
        Some(ExportFormat::WebP)
    } else {
        None
    }
}

/// The format an export to `path` uses: the one its extension names, and PNG
/// for a path without extension.
pub open spec fn export_format_for(path: Seq<char>) -> Result<ExportFormat, ExportError> {
    match path_extension(path) {
        None => Ok(ExportFormat::Png),
        Some(e) => match format_for(e) {
            Some(f) => Ok(f),
            None => Err(ExportError::UnsupportedFormat),
        },
    }
}

/// The format for exporting to `path`. Extensions are compared without
/// regard to ASCII case, which for these names is what lowercasing them
/// first gives.
pub fn export_format(path: &str) -> (format: Result<ExportFormat, ExportError>)
    ensures
        format == export_format_for(path@),
{
    let chars = chars_of(path);
    proof {
        reveal_strlit("jpg");
        reveal_strlit("jpeg");
        reveal_strlit("png");
        reveal_strlit("tif");
        reveal_strlit("tiff");
        reveal_strlit("webp");
    }
    match extension_span(&chars) {
        None => Ok(ExportFormat::Png),
        Some((start, end)) => {
            if span_is_word(&chars, start, end, "jpg") || span_is_word(&chars, start, end, "jpeg") {
                Ok(ExportFormat::Jpeg)
            } else if span_is_word(&chars, start, end, "png") {
                Ok(ExportFormat::Png)
            } else if span_is_word(&chars, start, end, "tif") || span_is_word(&chars, start, end, "tiff") {
                Ok(ExportFormat::Tiff)
            } else if span_is_word(&chars, start, end, "webp") {
                Ok(ExportFormat::WebP)
            } else {
                Err(ExportError::UnsupportedFormat)
            }
        },
    }
}

/// The JPEG quality used for a requested quality: clamped to 1..=100.
pub fn jpeg_quality(quality: u8) -> (used: u8)
    ensures
        used == if quality < 1 { 1 } else if quality > 100 { 100 } else { quality },
{
    if quality < 1 {
        1
    } else if quality > 100 {
        100
    } else {
        quality
    }
}

} // verus!
